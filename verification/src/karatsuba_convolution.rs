//! Convolutions of integer vectors by halving and by Karatsuba's method, and
//! the circulant MDS layers built on them.
use vstd::prelude::*;
use vstd::slice::{slice_subrange, slice_to_vec};
use vstd::arithmetic::div_mod::lemma_mod_multiples_vanish;
use crate::powers::is_power_of_two;
use crate::convolution::{
    budget, circulant_column, cyclic_conv, cyclic_sum, dot_prefix, lemma_bounds_multiply,
    lemma_conv2, lemma_cyclic_sum_bound, lemma_cyclic_sum_nonnegative, lemma_dot_prefix_bound,
    lemma_entry_product, lemma_fft_trick, lemma_half_budget, lemma_karatsuba, lemma_max_abs_all,
    lemma_max_abs_at_most, lemma_product_bound, lemma_shift_halves, lemma_signed_sum_bound,
    lemma_wide_product, max_abs, signed_conv, signed_sum,
};

verus! {

/// The first row of the circulant MDS matrix of order 8.
pub const MATRIX_CIRC_MDS_8_SML: [i64; 8] = [4, 1, 2, 9, 10, 5, 1, 1];

/// The first row of the circulant MDS matrix of order 12.
pub const MATRIX_CIRC_MDS_12_SML: [i64; 12] = [1, 1, 2, 1, 8, 9, 10, 7, 5, 9, 4, 10];

/// The first row of the circulant MDS matrix of order 16.
pub const MATRIX_CIRC_MDS_16_SML: [i64; 16] =
    [1, 1, 51, 1, 11, 17, 2, 1, 101, 63, 15, 2, 67, 22, 13, 3];

/// The Mersenne prime `2^31 - 1`.
pub const P: i64 = 0x7FFF_FFFF;

/// Adds `rhs` into the front of `lhs`, entry by entry.
pub fn add_mut(lhs: &mut [i64], rhs: &[i64])
    requires
        rhs@.len() <= old(lhs)@.len(),
        forall|i: int| 0 <= i < rhs@.len() ==> i64::MIN <= #[trigger] old(lhs)@[i] + rhs@[i] <= i64::MAX,
    ensures
        final(lhs)@.len() == old(lhs)@.len(),
        forall|i: int| 0 <= i < rhs@.len() ==> #[trigger] final(lhs)@[i] == old(lhs)@[i] + rhs@[i],
        forall|i: int| rhs@.len() <= i < old(lhs)@.len() ==> #[trigger] final(lhs)@[i] == old(lhs)@[i],
{
    let n = rhs.len();
    let mut i: usize = 0;
    while i < n
        invariant
            n == rhs@.len(),
            i <= n,
            lhs@.len() == old(lhs)@.len(),
            n <= lhs@.len(),
            forall|j: int| 0 <= j < i ==> #[trigger] lhs@[j] == old(lhs)@[j] + rhs@[j],
            forall|j: int| i <= j < lhs@.len() ==> #[trigger] lhs@[j] == old(lhs)@[j],
            forall|j: int| 0 <= j < rhs@.len() ==> i64::MIN <= #[trigger] old(lhs)@[j] + rhs@[j] <= i64::MAX,
        decreases n - i,
    {
        lhs[i] = lhs[i] + rhs[i];
        i += 1;
    }
}

/// The entry-wise sum of the first `N` entries of two slices.
pub fn add_vec<const N: usize>(lhs: &[i64], rhs: &[i64]) -> (output: [i64; N])
    requires
        N <= lhs@.len(),
        N <= rhs@.len(),
        forall|i: int| 0 <= i < N ==> i64::MIN <= #[trigger] lhs@[i] + rhs@[i] <= i64::MAX,
    ensures
        forall|i: int| 0 <= i < N ==> #[trigger] output@[i] == lhs@[i] + rhs@[i],
{
    let mut output: [i64; N] = [0i64; N];
    let mut i: usize = 0;
    while i < N
        invariant
            i <= N,
            N <= lhs@.len(),
            N <= rhs@.len(),
            forall|j: int| 0 <= j < i ==> #[trigger] output@[j] == lhs@[j] + rhs@[j],
            forall|j: int| 0 <= j < N ==> i64::MIN <= #[trigger] lhs@[j] + rhs@[j] <= i64::MAX,
        decreases N - i,
    {
        output[i] = lhs[i] + rhs[i];
        i += 1;
    }
    output
}

/// Subtracts `sub` from the front of `lhs`, entry by entry.
pub fn sub_mut(lhs: &mut [i64], sub: &[i64])
    requires
        sub@.len() <= old(lhs)@.len(),
        forall|i: int| 0 <= i < sub@.len() ==> i64::MIN <= #[trigger] old(lhs)@[i] - sub@[i] <= i64::MAX,
    ensures
        final(lhs)@.len() == old(lhs)@.len(),
        forall|i: int| 0 <= i < sub@.len() ==> #[trigger] final(lhs)@[i] == old(lhs)@[i] - sub@[i],
        forall|i: int| sub@.len() <= i < old(lhs)@.len() ==> #[trigger] final(lhs)@[i] == old(lhs)@[i],
{
    let n = sub.len();
    let mut i: usize = 0;
    while i < n
        invariant
            n == sub@.len(),
            i <= n,
            lhs@.len() == old(lhs)@.len(),
            n <= lhs@.len(),
            forall|j: int| 0 <= j < i ==> #[trigger] lhs@[j] == old(lhs)@[j] - sub@[j],
            forall|j: int| i <= j < lhs@.len() ==> #[trigger] lhs@[j] == old(lhs)@[j],
            forall|j: int| 0 <= j < sub@.len() ==> i64::MIN <= #[trigger] old(lhs)@[j] - sub@[j] <= i64::MAX,
        decreases n - i,
    {
        lhs[i] = lhs[i] - sub[i];
        i += 1;
    }
}

/// The entry-wise difference of the first `N` entries of two slices.
pub fn sub_vec<const N: usize>(lhs: &[i64], sub: &[i64]) -> (output: [i64; N])
    requires
        N <= lhs@.len(),
        N <= sub@.len(),
        forall|i: int| 0 <= i < N ==> i64::MIN <= #[trigger] lhs@[i] - sub@[i] <= i64::MAX,
    ensures
        forall|i: int| 0 <= i < N ==> #[trigger] output@[i] == lhs@[i] - sub@[i],
{
    let mut output: [i64; N] = [0i64; N];
    let mut i: usize = 0;
    while i < N
        invariant
            i <= N,
            N <= lhs@.len(),
            N <= sub@.len(),
            forall|j: int| 0 <= j < i ==> #[trigger] output@[j] == lhs@[j] - sub@[j],
            forall|j: int| 0 <= j < N ==> i64::MIN <= #[trigger] lhs@[j] - sub@[j] <= i64::MAX,
        decreases N - i,
    {
        output[i] = lhs[i] - sub[i];
        i += 1;
    }
    output
}

/// The dot product of `lhs` with the front of `rhs`, summed in 128 bits.
pub fn dot_i128(lhs: &[i64], rhs: &[i64]) -> (sum: i128)
    requires
        1 <= lhs@.len() <= rhs@.len(),
        forall|k: nat| 1 <= k <= lhs@.len() ==> i128::MIN <= #[trigger] dot_prefix(lhs@, rhs@, k) <= i128::MAX,
    ensures
        sum == dot_prefix(lhs@, rhs@, lhs@.len()),
{
    let n = lhs.len();
    proof {
        lemma_wide_product(lhs@[0], rhs@[0]);
        assert(dot_prefix(lhs@, rhs@, 1) == dot_prefix(lhs@, rhs@, 0) + lhs@[0] * rhs@[0]);
    }
    let mut sum: i128 = (lhs[0] as i128) * (rhs[0] as i128);
    let mut i: usize = 1;
    while i < n
        invariant
            n == lhs@.len(),
            n <= rhs@.len(),
            1 <= i <= n,
            sum == dot_prefix(lhs@, rhs@, i as nat),
            forall|k: nat| 1 <= k <= lhs@.len() ==> i128::MIN <= #[trigger] dot_prefix(lhs@, rhs@, k) <= i128::MAX,
        decreases n - i,
    {
        proof {
            lemma_wide_product(lhs@[i as int], rhs@[i as int]);
            assert(dot_prefix(lhs@, rhs@, (i + 1) as nat) == dot_prefix(lhs@, rhs@, i as nat) + lhs@[i as int]
                * rhs@[i as int]);
        }
        sum = sum + (lhs[i] as i128) * (rhs[i] as i128);
        i += 1;
    }
    sum
}

/// The dot product of `lhs` with the front of `rhs`, where every product and
/// every partial sum fits 64 bits.
pub fn dot_i64(lhs: &[i64], rhs: &[i64]) -> (sum: i64)
    requires
        1 <= lhs@.len() <= rhs@.len(),
        forall|k: nat| 1 <= k <= lhs@.len() ==> i64::MIN <= #[trigger] dot_prefix(lhs@, rhs@, k) <= i64::MAX,
        forall|i: int| 0 <= i < lhs@.len() ==> i64::MIN <= #[trigger] lhs@[i] * rhs@[i] <= i64::MAX,
    ensures
        sum == dot_prefix(lhs@, rhs@, lhs@.len()),
{
    dot(lhs, rhs)
}

/// The dot product of `lhs` with the front of `rhs`.
pub fn dot(lhs: &[i64], rhs: &[i64]) -> (sum: i64)
    requires
        1 <= lhs@.len() <= rhs@.len(),
        forall|k: nat| 1 <= k <= lhs@.len() ==> i64::MIN <= #[trigger] dot_prefix(lhs@, rhs@, k) <= i64::MAX,
        forall|i: int| 0 <= i < lhs@.len() ==> i64::MIN <= #[trigger] lhs@[i] * rhs@[i] <= i64::MAX,
    ensures
        sum == dot_prefix(lhs@, rhs@, lhs@.len()),
{
    let n = lhs.len();
    proof {
        assert(dot_prefix(lhs@, rhs@, 1) == dot_prefix(lhs@, rhs@, 0) + lhs@[0] * rhs@[0]);
    }
    let mut sum: i64 = lhs[0] * rhs[0];
    let mut i: usize = 1;
    while i < n
        invariant
            n == lhs@.len(),
            n <= rhs@.len(),
            1 <= i <= n,
            sum == dot_prefix(lhs@, rhs@, i as nat),
            forall|k: nat| 1 <= k <= lhs@.len() ==> i64::MIN <= #[trigger] dot_prefix(lhs@, rhs@, k) <= i64::MAX,
            forall|j: int| 0 <= j < lhs@.len() ==> i64::MIN <= #[trigger] lhs@[j] * rhs@[j] <= i64::MAX,
        decreases n - i,
    {
        proof {
            assert(dot_prefix(lhs@, rhs@, (i + 1) as nat) == dot_prefix(lhs@, rhs@, i as nat) + lhs@[i as int]
                * rhs@[i as int]);
        }
        sum = sum + lhs[i] * rhs[i];
        i += 1;
    }
    sum
}

/// Splits an array into halves and returns their entry-wise sum and difference.
pub fn split_add_sub<const N: usize, const HALF: usize>(input: [i64; N]) -> (output: ([i64; HALF], [i64; HALF]))
    requires
        N == 2 * HALF,
        forall|i: int| 0 <= i < HALF ==> i64::MIN <= #[trigger] input@[i] + input@[i + HALF] <= i64::MAX,
        forall|i: int| 0 <= i < HALF ==> i64::MIN <= #[trigger] input@[i] - input@[i + HALF] <= i64::MAX,
    ensures
        forall|i: int| 0 <= i < HALF ==> #[trigger] output.0@[i] == input@[i] + input@[i + HALF],
        forall|i: int| 0 <= i < HALF ==> #[trigger] output.1@[i] == input@[i] - input@[i + HALF],
{
    let mut input_p: [i64; HALF] = [0i64; HALF];
    let mut input_m: [i64; HALF] = [0i64; HALF];
    let mut i: usize = 0;
    while i < HALF
        invariant
            i <= HALF,
            N == 2 * HALF,
            forall|j: int| 0 <= j < i ==> #[trigger] input_p@[j] == input@[j] + input@[j + HALF],
            forall|j: int| 0 <= j < i ==> #[trigger] input_m@[j] == input@[j] - input@[j + HALF],
            forall|j: int| 0 <= j < HALF ==> i64::MIN <= #[trigger] input@[j] + input@[j + HALF] <= i64::MAX,
            forall|j: int| 0 <= j < HALF ==> i64::MIN <= #[trigger] input@[j] - input@[j + HALF] <= i64::MAX,
        decreases HALF - i,
    {
        input_p[i] = input[i] + input[i + HALF];
        input_m[i] = input[i] - input[i + HALF];
        i += 1;
    }
    (input_p, input_m)
}

/// The first column of the circulant matrix whose first row is `row`.
pub fn row_to_col<const N: usize>(row: [i64; N]) -> (col: [i64; N])
    requires
        N >= 1,
    ensures
        col@ == circulant_column(row@),
{
    let mut col: [i64; N] = [row[0]; N];
    let mut i: usize = 1;
    while i < N
        invariant
            1 <= i <= N,
            col@[0] == row@[0],
            forall|j: int| 1 <= j < i ==> #[trigger] col@[j] == row@[N - j],
        decreases N - i,
    {
        col[i] = row[N - i];
        i += 1;
    }
    assert(col@ =~= circulant_column(row@));
    col
}

/// The even-indexed entries, the odd-indexed entries, and their entry-wise sums.
pub fn split_eom(vec: &[i64]) -> (output: (Vec<i64>, Vec<i64>, Vec<i64>))
    requires
        forall|i: int| 0 <= i < vec@.len() / 2 ==> i64::MIN <= #[trigger] vec@[2 * i] + vec@[2 * i + 1] <= i64::MAX,
    ensures
        output.0@.len() == vec@.len() / 2,
        output.1@.len() == vec@.len() / 2,
        output.2@.len() == vec@.len() / 2,
        forall|i: int| 0 <= i < vec@.len() / 2 ==> #[trigger] output.0@[i] == vec@[2 * i],
        forall|i: int| 0 <= i < vec@.len() / 2 ==> #[trigger] output.1@[i] == vec@[2 * i + 1],
        forall|i: int| 0 <= i < vec@.len() / 2 ==> #[trigger] output.2@[i] == vec@[2 * i] + vec@[2 * i + 1],
{
    let n = vec.len();
    let half = n / 2;
    let mut output_even: Vec<i64> = Vec::new();
    let mut output_odd: Vec<i64> = Vec::new();
    let mut output_mix: Vec<i64> = Vec::new();
    let mut i: usize = 0;
    while i < half
        invariant
            n == vec@.len(),
            half == n / 2,
            i <= half,
            output_even@.len() == i,
            output_odd@.len() == i,
            output_mix@.len() == i,
            forall|j: int| 0 <= j < i ==> #[trigger] output_even@[j] == vec@[2 * j],
            forall|j: int| 0 <= j < i ==> #[trigger] output_odd@[j] == vec@[2 * j + 1],
            forall|j: int| 0 <= j < i ==> #[trigger] output_mix@[j] == vec@[2 * j] + vec@[2 * j + 1],
            forall|j: int| 0 <= j < vec@.len() / 2 ==> i64::MIN <= #[trigger] vec@[2 * j] + vec@[2 * j + 1] <= i64::MAX,
        decreases half - i,
    {
        output_even.push(vec[2 * i]);
        output_odd.push(vec[2 * i + 1]);
        output_mix.push(vec[2 * i] + vec[2 * i + 1]);
        i += 1;
    }
    (output_even, output_odd, output_mix)
}

/// Interleaves the left and right halves of a vector in place.
pub fn rearrange(vec: &mut [i64])
    ensures
        final(vec)@.len() == old(vec)@.len(),
        forall|i: int| 0 <= i < old(vec)@.len() / 2 ==> #[trigger] final(vec)@[2 * i] == old(vec)@[i],
        forall|i: int| 0 <= i < old(vec)@.len() / 2 ==> #[trigger] final(vec)@[2 * i + 1] == old(vec)@[i + old(vec)@.len() / 2],
        old(vec)@.len() % 2 == 1 ==> final(vec)@[old(vec)@.len() - 1] == old(vec)@[old(vec)@.len() - 1],
{
    let n = vec.len();
    let half = n / 2;
    let mut stored_evens: Vec<i64> = Vec::new();
    let mut k: usize = 0;
    while k < half
        invariant
            k <= half,
            half == n / 2,
            n == vec@.len(),
            vec@ == old(vec)@,
            stored_evens@.len() == k,
            forall|j: int| 0 <= j < k ==> #[trigger] stored_evens@[j] == vec@[j],
        decreases half - k,
    {
        stored_evens.push(vec[k]);
        k += 1;
    }
    let mut i: usize = 0;
    while i < half
        invariant
            i <= half,
            half == n / 2,
            n == vec@.len(),
            n == old(vec)@.len(),
            stored_evens@.len() == half,
            forall|j: int| 0 <= j < half ==> #[trigger] stored_evens@[j] == old(vec)@[j],
            forall|j: int| 0 <= j < i ==> #[trigger] vec@[2 * j] == old(vec)@[j],
            forall|j: int| 0 <= j < i ==> #[trigger] vec@[2 * j + 1] == old(vec)@[j + half],
            forall|j: int| 2 * i <= j < n ==> #[trigger] vec@[j] == old(vec)@[j],
        decreases half - i,
    {
        let right = vec[i + half];
        vec[2 * i] = stored_evens[i];
        vec[2 * i + 1] = right;
        i += 1;
    }
}

/// The convolution of two vectors of length 3.
pub fn conv3(lhs: [i64; 3], rhs: [i64; 3]) -> (output: [i64; 3])
    requires
        3 * (max_abs(lhs@) * max_abs(rhs@)) <= i64::MAX,
    ensures
        forall|k: int| 0 <= k < 3 ==> #[trigger] output@[k] == cyclic_conv(lhs@, rhs@, k),
{
    proof {
        lemma_entry_product(lhs@, rhs@, 0, 0);
        lemma_entry_product(lhs@, rhs@, 0, 1);
        lemma_entry_product(lhs@, rhs@, 0, 2);
        lemma_entry_product(lhs@, rhs@, 1, 0);
        lemma_entry_product(lhs@, rhs@, 1, 1);
        lemma_entry_product(lhs@, rhs@, 1, 2);
        lemma_entry_product(lhs@, rhs@, 2, 0);
        lemma_entry_product(lhs@, rhs@, 2, 1);
        lemma_entry_product(lhs@, rhs@, 2, 2);
        reveal_with_fuel(cyclic_sum, 4);
    }
    let output = [
        lhs[0] * rhs[0] + lhs[1] * rhs[2] + lhs[2] * rhs[1],
        lhs[0] * rhs[1] + lhs[1] * rhs[0] + lhs[2] * rhs[2],
        lhs[0] * rhs[2] + lhs[1] * rhs[1] + lhs[2] * rhs[0],
    ];
    proof {
        assert(output@[0] == cyclic_conv(lhs@, rhs@, 0));
        assert(output@[1] == cyclic_conv(lhs@, rhs@, 1));
        assert(output@[2] == cyclic_conv(lhs@, rhs@, 2));
    }
    output
}

/// The signed convolution of two vectors of length 3.
pub fn sign_conv3(lhs: &[i64; 3], rhs: &[i64; 3]) -> (output: [i64; 3])
    requires
        3 * (max_abs(lhs@) * max_abs(rhs@)) <= i64::MAX,
    ensures
        forall|k: int| 0 <= k < 3 ==> #[trigger] output@[k] == signed_conv(lhs@, rhs@, k),
{
    proof {
        lemma_entry_product(lhs@, rhs@, 0, 0);
        lemma_entry_product(lhs@, rhs@, 0, 1);
        lemma_entry_product(lhs@, rhs@, 0, 2);
        lemma_entry_product(lhs@, rhs@, 1, 0);
        lemma_entry_product(lhs@, rhs@, 1, 1);
        lemma_entry_product(lhs@, rhs@, 1, 2);
        lemma_entry_product(lhs@, rhs@, 2, 0);
        lemma_entry_product(lhs@, rhs@, 2, 1);
        lemma_entry_product(lhs@, rhs@, 2, 2);
        reveal_with_fuel(signed_sum, 4);
    }
    let output = [
        lhs[0] * rhs[0] - lhs[1] * rhs[2] - lhs[2] * rhs[1],
        lhs[0] * rhs[1] + lhs[1] * rhs[0] - lhs[2] * rhs[2],
        lhs[0] * rhs[2] + lhs[1] * rhs[1] + lhs[2] * rhs[0],
    ];
    proof {
        assert(output@[0] == signed_conv(lhs@, rhs@, 0));
        assert(output@[1] == signed_conv(lhs@, rhs@, 1));
        assert(output@[2] == signed_conv(lhs@, rhs@, 2));
    }
    output
}

/// The signed convolution of two vectors of length 4, written to the front
/// of `output`.
pub fn signed_conv4_slice(lhs: &[i64], rhs: &[i64], output: &mut [i64])
    requires
        lhs@.len() == 4,
        rhs@.len() == 4,
        old(output)@.len() >= 4,
        4 * (max_abs(lhs@) * max_abs(rhs@)) <= i64::MAX,
    ensures
        final(output)@.len() == old(output)@.len(),
        forall|k: int| 0 <= k < 4 ==> #[trigger] final(output)@[k] == signed_conv(lhs@, rhs@, k),
        forall|k: int| 4 <= k < old(output)@.len() ==> #[trigger] final(output)@[k] == old(output)@[k],
{
    let rhs_rev = [rhs[3], rhs[2], rhs[1], rhs[0]];
    let rev = rhs_rev.as_slice();
    let ghost x = max_abs(lhs@);
    let ghost y = max_abs(rhs@);
    let l1 = slice_subrange(lhs, 1, 4);
    let l01 = slice_subrange(lhs, 0, 2);
    let l23 = slice_subrange(lhs, 2, 4);
    let l012 = slice_subrange(lhs, 0, 3);
    let r012 = slice_subrange(rev, 0, 3);
    let r23 = slice_subrange(rev, 2, 4);
    let r01 = slice_subrange(rev, 0, 2);
    let r123 = slice_subrange(rev, 1, 4);
    proof {
        lemma_max_abs_all(lhs@);
        lemma_max_abs_all(rhs@);
        lemma_dot_prefix_bound(l1@, r012@, 3, x, y);
        lemma_dot_prefix_bound(l01@, r23@, 2, x, y);
        lemma_dot_prefix_bound(l23@, r01@, 2, x, y);
        lemma_dot_prefix_bound(l012@, r123@, 3, x, y);
        lemma_dot_prefix_bound(lhs@, rev@, 4, x, y);
        lemma_entry_product(lhs@, rhs@, 0, 0);
        lemma_entry_product(lhs@, rhs@, 3, 3);
        reveal_with_fuel(dot_prefix, 5);
        reveal_with_fuel(signed_sum, 5);
    }
    let first = lhs[0] * rhs[0] - dot(l1, r012);
    let second = dot(l01, r23) - dot(l23, r01);
    let third = dot(l012, r123) - lhs[3] * rhs[3];
    let fourth = dot(lhs, rev);
    proof {
        assert(first == signed_conv(lhs@, rhs@, 0));
        assert(second == signed_conv(lhs@, rhs@, 1));
        assert(third == signed_conv(lhs@, rhs@, 2));
        assert(fourth == signed_conv(lhs@, rhs@, 3));
    }
    output[0] = first;
    output[1] = second;
    output[2] = third;
    output[3] = fourth;
}

/// The convolution of two vectors of length 4, written to the front of
/// `output`.
pub fn conv4_slice(lhs: &[i64], rhs: &[i64], output: &mut [i64])
    requires
        lhs@.len() == 4,
        rhs@.len() == 4,
        old(output)@.len() >= 4,
        2 * max_abs(lhs@) <= i64::MAX,
        2 * max_abs(rhs@) <= i64::MAX,
        16 * (max_abs(lhs@) * max_abs(rhs@)) <= i64::MAX,
    ensures
        final(output)@.len() == old(output)@.len(),
        forall|k: int| 0 <= k < 4 ==> #[trigger] final(output)@[k] == cyclic_conv(lhs@, rhs@, k),
        forall|k: int| 4 <= k < old(output)@.len() ==> #[trigger] final(output)@[k] == old(output)@[k],
{
    let ghost x = max_abs(lhs@);
    let ghost y = max_abs(rhs@);
    proof {
        lemma_max_abs_all(lhs@);
        lemma_max_abs_all(rhs@);
    }
    let lhs_p = [lhs[0] + lhs[2], lhs[1] + lhs[3]];
    let lhs_m = [lhs[0] - lhs[2], lhs[1] - lhs[3]];
    let rhs_p = [rhs[0] + rhs[2], rhs[1] + rhs[3]];
    let rhs_m = [rhs[0] - rhs[2], rhs[1] - rhs[3]];
    proof {
        assert((2 * x) * (2 * y) == 4 * (x * y)) by (nonlinear_arith);
        lemma_product_bound(lhs_m@[0] as int, rhs_m@[0] as int, 2 * x, 2 * y);
        lemma_product_bound(lhs_m@[1] as int, rhs_m@[1] as int, 2 * x, 2 * y);
        lemma_product_bound(lhs_m@[0] as int, rhs_m@[1] as int, 2 * x, 2 * y);
        lemma_product_bound(lhs_m@[1] as int, rhs_m@[0] as int, 2 * x, 2 * y);
        lemma_product_bound(lhs_p@[0] as int, rhs_p@[0] as int, 2 * x, 2 * y);
        lemma_product_bound(lhs_p@[1] as int, rhs_p@[1] as int, 2 * x, 2 * y);
        lemma_product_bound(lhs_p@[0] as int, rhs_p@[1] as int, 2 * x, 2 * y);
        lemma_product_bound(lhs_p@[1] as int, rhs_p@[0] as int, 2 * x, 2 * y);
    }
    let w1_0 = lhs_m[0] * rhs_m[0] - lhs_m[1] * rhs_m[1];
    let w1_1 = lhs_m[0] * rhs_m[1] + lhs_m[1] * rhs_m[0];
    let w0_0 = lhs_p[0] * rhs_p[0] + lhs_p[1] * rhs_p[1];
    let w0_1 = lhs_p[0] * rhs_p[1] + lhs_p[1] * rhs_p[0];
    proof {
        lemma_conv2(lhs_p@, rhs_p@);
        lemma_conv2(lhs_m@, rhs_m@);
        lemma_fft_trick(lhs@, rhs@, lhs_p@, lhs_m@, rhs_p@, rhs_m@, 0);
        lemma_fft_trick(lhs@, rhs@, lhs_p@, lhs_m@, rhs_p@, rhs_m@, 1);
        lemma_shift_halves((w1_0 + w0_0) as i64);
        lemma_shift_halves((w1_1 + w0_1) as i64);
    }
    let low_0 = (w1_0 + w0_0) >> 1;
    let low_1 = (w1_1 + w0_1) >> 1;
    output[0] = low_0;
    output[1] = low_1;
    output[2] = w0_0 - low_0;
    output[3] = w0_1 - low_1;
}

/// The convolution of two vectors of length 6, from a convolution and a
/// signed convolution of length 3.
pub fn conv6(lhs: [i64; 6], rhs: [i64; 6]) -> (output: [i64; 6])
    requires
        2 * max_abs(lhs@) <= i64::MAX,
        2 * max_abs(rhs@) <= i64::MAX,
        24 * (max_abs(lhs@) * max_abs(rhs@)) <= i64::MAX,
    ensures
        forall|k: int| 0 <= k < 6 ==> #[trigger] output@[k] == cyclic_conv(lhs@, rhs@, k),
{
    let ghost x = max_abs(lhs@);
    let ghost y = max_abs(rhs@);
    proof {
        lemma_max_abs_all(lhs@);
        lemma_max_abs_all(rhs@);
    }
    let (lhs_p, lhs_m) = split_add_sub::<6, 3>(lhs);
    let (rhs_p, rhs_m) = split_add_sub::<6, 3>(rhs);
    proof {
        lemma_max_abs_at_most(lhs_p@, 2 * x);
        lemma_max_abs_at_most(lhs_m@, 2 * x);
        lemma_max_abs_at_most(rhs_p@, 2 * y);
        lemma_max_abs_at_most(rhs_m@, 2 * y);
        lemma_bounds_multiply(max_abs(lhs_p@), max_abs(rhs_p@), 2 * x, 2 * y);
        lemma_bounds_multiply(max_abs(lhs_m@), max_abs(rhs_m@), 2 * x, 2 * y);
        assert((2 * x) * (2 * y) == 4 * (x * y)) by (nonlinear_arith);
    }
    let prod_p = conv3(lhs_p, rhs_p);
    let prod_m = sign_conv3(&lhs_m, &rhs_m);
    proof {
        lemma_max_abs_all(lhs_p@);
        lemma_max_abs_all(rhs_p@);
        lemma_max_abs_all(lhs_m@);
        lemma_max_abs_all(rhs_m@);
        assert forall|k: int| 0 <= k < 3 implies -(3 * (4 * (x * y))) <= #[trigger] prod_p@[k] <= 3 * (4 * (x
            * y)) by {
            lemma_cyclic_sum_bound(lhs_p@, rhs_p@, k, 3, 2 * x, 2 * y);
        }
        assert forall|k: int| 0 <= k < 3 implies -(3 * (4 * (x * y))) <= #[trigger] prod_m@[k] <= 3 * (4 * (x
            * y)) by {
            lemma_signed_sum_bound(lhs_m@, rhs_m@, k, 3, 2 * x, 2 * y);
        }
        assert forall|k: int| 0 <= k < 3 implies #[trigger] prod_p@[k] + prod_m@[k] == 2 * cyclic_conv(lhs@, rhs@, k)
            && prod_p@[k] - prod_m@[k] == 2 * cyclic_conv(lhs@, rhs@, k + 3) by {
            lemma_fft_trick(lhs@, rhs@, lhs_p@, lhs_m@, rhs_p@, rhs_m@, k);
        }
    }
    let mut output: [i64; 6] = [0i64; 6];
    let mut i: usize = 0;
    while i < 3
        invariant
            i <= 3,
            forall|k: int| 0 <= k < 3 ==> -(3 * (4 * (x * y))) <= #[trigger] prod_p@[k] <= 3 * (4 * (x * y)),
            forall|k: int| 0 <= k < 3 ==> -(3 * (4 * (x * y))) <= #[trigger] prod_m@[k] <= 3 * (4 * (x * y)),
            24 * (x * y) <= i64::MAX,
            forall|k: int|
                0 <= k < 3 ==> #[trigger] prod_p@[k] + prod_m@[k] == 2 * cyclic_conv(lhs@, rhs@, k),
            forall|k: int|
                0 <= k < 3 ==> #[trigger] prod_p@[k] - prod_m@[k] == 2 * cyclic_conv(lhs@, rhs@, k + 3),
            forall|k: int| 0 <= k < i ==> #[trigger] output@[k] == cyclic_conv(lhs@, rhs@, k),
            forall|k: int| 3 <= k < 3 + i ==> #[trigger] output@[k] == cyclic_conv(lhs@, rhs@, k),
        decreases 3 - i,
    {
        proof {
            lemma_shift_halves((prod_p@[i as int] + prod_m@[i as int]) as i64);
            lemma_shift_halves((prod_p@[i as int] - prod_m@[i as int]) as i64);
            assert(prod_p@[i as int] + prod_m@[i as int] == 2 * cyclic_conv(lhs@, rhs@, i as int));
            assert(prod_p@[i as int] - prod_m@[i as int] == 2 * cyclic_conv(lhs@, rhs@, i + 3));
        }
        output[i] = (prod_p[i] + prod_m[i]) >> 1;
        output[i + 3] = (prod_p[i] - prod_m[i]) >> 1;
        i += 1;
    }
    output
}

/// The signed convolution of two vectors of length 6.
pub fn sign_conv6(lhs: &[i64; 6], rhs: &[i64; 6]) -> (output: [i64; 6])
    requires
        6 * (max_abs(lhs@) * max_abs(rhs@)) <= i64::MAX,
    ensures
        forall|k: int| 0 <= k < 6 ==> #[trigger] output@[k] == signed_conv(lhs@, rhs@, k),
{
    let rhs_rev = [rhs[5], rhs[4], rhs[3], rhs[2], rhs[1], rhs[0]];
    let left = lhs.as_slice();
    let rev = rhs_rev.as_slice();
    let ghost x = max_abs(lhs@);
    let ghost y = max_abs(rhs@);
    let head_1 = slice_subrange(left, 0, 1);
    let tail_1 = slice_subrange(left, 1, 6);
    let rev_head_1 = slice_subrange(rev, 0, 1);
    let rev_tail_1 = slice_subrange(rev, 1, 6);
    let head_2 = slice_subrange(left, 0, 2);
    let tail_2 = slice_subrange(left, 2, 6);
    let rev_head_2 = slice_subrange(rev, 0, 2);
    let rev_tail_2 = slice_subrange(rev, 2, 6);
    let head_3 = slice_subrange(left, 0, 3);
    let tail_3 = slice_subrange(left, 3, 6);
    let rev_head_3 = slice_subrange(rev, 0, 3);
    let rev_tail_3 = slice_subrange(rev, 3, 6);
    let head_4 = slice_subrange(left, 0, 4);
    let tail_4 = slice_subrange(left, 4, 6);
    let rev_head_4 = slice_subrange(rev, 0, 4);
    let rev_tail_4 = slice_subrange(rev, 4, 6);
    let head_5 = slice_subrange(left, 0, 5);
    let tail_5 = slice_subrange(left, 5, 6);
    let rev_head_5 = slice_subrange(rev, 0, 5);
    let rev_tail_5 = slice_subrange(rev, 5, 6);
    proof {
        lemma_max_abs_all(lhs@);
        lemma_max_abs_all(rhs@);
        lemma_dot_prefix_bound(head_1@, rev_tail_5@, 1, x, y);
        lemma_dot_prefix_bound(tail_1@, rev_head_5@, 5, x, y);
        lemma_dot_prefix_bound(head_2@, rev_tail_4@, 2, x, y);
        lemma_dot_prefix_bound(tail_2@, rev_head_4@, 4, x, y);
        lemma_dot_prefix_bound(head_3@, rev_tail_3@, 3, x, y);
        lemma_dot_prefix_bound(tail_3@, rev_head_3@, 3, x, y);
        lemma_dot_prefix_bound(head_4@, rev_tail_2@, 4, x, y);
        lemma_dot_prefix_bound(tail_4@, rev_head_2@, 2, x, y);
        lemma_dot_prefix_bound(head_5@, rev_tail_1@, 5, x, y);
        lemma_dot_prefix_bound(tail_5@, rev_head_1@, 1, x, y);
        lemma_dot_prefix_bound(left@, rev@, 6, x, y);
        lemma_entry_product(lhs@, rhs@, 0, 0);
        lemma_entry_product(lhs@, rhs@, 5, 5);
        reveal_with_fuel(dot_prefix, 7);
        reveal_with_fuel(signed_sum, 7);
    }
    let out_0 = lhs[0] * rhs[0] - dot(tail_1, rev_head_5);
    let out_1 = dot(head_2, rev_tail_4) - dot(tail_2, rev_head_4);
    let out_2 = dot(head_3, rev_tail_3) - dot(tail_3, rev_head_3);
    let out_3 = dot(head_4, rev_tail_2) - dot(tail_4, rev_head_2);
    let out_4 = dot(head_5, rev_tail_1) - lhs[5] * rhs[5];
    let out_5 = dot(left, rev);
    proof {
        assert(out_0 == signed_conv(lhs@, rhs@, 0));
        assert(out_1 == signed_conv(lhs@, rhs@, 1));
        assert(out_2 == signed_conv(lhs@, rhs@, 2));
        assert(out_3 == signed_conv(lhs@, rhs@, 3));
        assert(out_4 == signed_conv(lhs@, rhs@, 4));
        assert(out_5 == signed_conv(lhs@, rhs@, 5));
    }
    [out_0, out_1, out_2, out_3, out_4, out_5]
}

/// The convolution of two vectors of length 12, from a convolution and a
/// signed convolution of length 6.
pub fn conv12(lhs: [i64; 12], rhs: [i64; 12]) -> (output: [i64; 12])
    requires
        4 * max_abs(lhs@) <= i64::MAX,
        4 * max_abs(rhs@) <= i64::MAX,
        96 * (max_abs(lhs@) * max_abs(rhs@)) <= i64::MAX,
    ensures
        forall|k: int| 0 <= k < 12 ==> #[trigger] output@[k] == cyclic_conv(lhs@, rhs@, k),
{
    let ghost x = max_abs(lhs@);
    let ghost y = max_abs(rhs@);
    proof {
        lemma_max_abs_all(lhs@);
        lemma_max_abs_all(rhs@);
    }
    let (lhs_p, lhs_m) = split_add_sub::<12, 6>(lhs);
    let (rhs_p, rhs_m) = split_add_sub::<12, 6>(rhs);
    proof {
        lemma_max_abs_at_most(lhs_p@, 2 * x);
        lemma_max_abs_at_most(lhs_m@, 2 * x);
        lemma_max_abs_at_most(rhs_p@, 2 * y);
        lemma_max_abs_at_most(rhs_m@, 2 * y);
        lemma_bounds_multiply(max_abs(lhs_p@), max_abs(rhs_p@), 2 * x, 2 * y);
        lemma_bounds_multiply(max_abs(lhs_m@), max_abs(rhs_m@), 2 * x, 2 * y);
        assert((2 * x) * (2 * y) == 4 * (x * y)) by (nonlinear_arith);
    }
    let prod_p = conv6(lhs_p, rhs_p);
    let prod_m = sign_conv6(&lhs_m, &rhs_m);
    proof {
        lemma_max_abs_all(lhs_p@);
        lemma_max_abs_all(rhs_p@);
        lemma_max_abs_all(lhs_m@);
        lemma_max_abs_all(rhs_m@);
        assert forall|k: int| 0 <= k < 6 implies -(6 * (4 * (x * y))) <= #[trigger] prod_p@[k] <= 6 * (4 * (x
            * y)) by {
            lemma_cyclic_sum_bound(lhs_p@, rhs_p@, k, 6, 2 * x, 2 * y);
        }
        assert forall|k: int| 0 <= k < 6 implies -(6 * (4 * (x * y))) <= #[trigger] prod_m@[k] <= 6 * (4 * (x
            * y)) by {
            lemma_signed_sum_bound(lhs_m@, rhs_m@, k, 6, 2 * x, 2 * y);
        }
        assert forall|k: int| 0 <= k < 6 implies #[trigger] prod_p@[k] + prod_m@[k] == 2 * cyclic_conv(lhs@, rhs@, k)
            && prod_p@[k] - prod_m@[k] == 2 * cyclic_conv(lhs@, rhs@, k + 6) by {
            lemma_fft_trick(lhs@, rhs@, lhs_p@, lhs_m@, rhs_p@, rhs_m@, k);
        }
    }
    let mut output: [i64; 12] = [0i64; 12];
    let mut i: usize = 0;
    while i < 6
        invariant
            i <= 6,
            forall|k: int| 0 <= k < 6 ==> -(6 * (4 * (x * y))) <= #[trigger] prod_p@[k] <= 6 * (4 * (x * y)),
            forall|k: int| 0 <= k < 6 ==> -(6 * (4 * (x * y))) <= #[trigger] prod_m@[k] <= 6 * (4 * (x * y)),
            96 * (x * y) <= i64::MAX,
            forall|k: int|
                0 <= k < 6 ==> #[trigger] prod_p@[k] + prod_m@[k] == 2 * cyclic_conv(lhs@, rhs@, k),
            forall|k: int|
                0 <= k < 6 ==> #[trigger] prod_p@[k] - prod_m@[k] == 2 * cyclic_conv(lhs@, rhs@, k + 6),
            forall|k: int| 0 <= k < i ==> #[trigger] output@[k] == cyclic_conv(lhs@, rhs@, k),
            forall|k: int| 6 <= k < 6 + i ==> #[trigger] output@[k] == cyclic_conv(lhs@, rhs@, k),
        decreases 6 - i,
    {
        proof {
            lemma_shift_halves((prod_p@[i as int] + prod_m@[i as int]) as i64);
            lemma_shift_halves((prod_p@[i as int] - prod_m@[i as int]) as i64);
            assert(prod_p@[i as int] + prod_m@[i as int] == 2 * cyclic_conv(lhs@, rhs@, i as int));
            assert(prod_p@[i as int] - prod_m@[i as int] == 2 * cyclic_conv(lhs@, rhs@, i + 6));
        }
        output[i] = (prod_p[i] + prod_m[i]) >> 1;
        output[i + 6] = (prod_p[i] - prod_m[i]) >> 1;
        i += 1;
    }
    output
}

/// The signed convolution of two vectors of length 4, written to the front
/// of `output`.
pub fn signed_conv4_mut(lhs: &[i64; 4], rhs: &[i64; 4], output: &mut [i64])
    requires
        old(output)@.len() >= 4,
        4 * (max_abs(lhs@) * max_abs(rhs@)) <= i64::MAX,
    ensures
        final(output)@.len() == old(output)@.len(),
        forall|k: int| 0 <= k < 4 ==> #[trigger] final(output)@[k] == signed_conv(lhs@, rhs@, k),
        forall|k: int| 4 <= k < old(output)@.len() ==> #[trigger] final(output)@[k] == old(output)@[k],
{
    signed_conv4_slice(lhs.as_slice(), rhs.as_slice(), output);
}

/// The signed convolution of two vectors of length 4.
pub fn signed_conv4(lhs: &[i64; 4], rhs: &[i64; 4]) -> (output: [i64; 4])
    requires
        4 * (max_abs(lhs@) * max_abs(rhs@)) <= i64::MAX,
    ensures
        forall|k: int| 0 <= k < 4 ==> #[trigger] output@[k] == signed_conv(lhs@, rhs@, k),
{
    let mut output = [0i64; 4];
    signed_conv4_mut(lhs, rhs, &mut output);
    output
}

/// The convolution of two vectors of length 4, written to the front of
/// `output`.
pub fn conv4(lhs: [i64; 4], rhs: [i64; 4], output: &mut [i64])
    requires
        old(output)@.len() >= 4,
        2 * max_abs(lhs@) <= i64::MAX,
        2 * max_abs(rhs@) <= i64::MAX,
        16 * (max_abs(lhs@) * max_abs(rhs@)) <= i64::MAX,
    ensures
        final(output)@.len() == old(output)@.len(),
        forall|k: int| 0 <= k < 4 ==> #[trigger] final(output)@[k] == cyclic_conv(lhs@, rhs@, k),
        forall|k: int| 4 <= k < old(output)@.len() ==> #[trigger] final(output)@[k] == old(output)@[k],
{
    conv4_slice(lhs.as_slice(), rhs.as_slice(), output);
}

/// The signed convolution of two vectors of length 8, from three signed
/// convolutions of length 4.
pub fn signed_conv8(lhs: &[i64; 8], rhs: &[i64; 8]) -> (output: [i64; 8])
    requires
        2 * max_abs(lhs@) <= i64::MAX,
        2 * max_abs(rhs@) <= i64::MAX,
        24 * (max_abs(lhs@) * max_abs(rhs@)) <= i64::MAX,
    ensures
        forall|k: int| 0 <= k < 8 ==> #[trigger] output@[k] == signed_conv(lhs@, rhs@, k),
{
    let ghost x = max_abs(lhs@);
    let ghost y = max_abs(rhs@);
    proof {
        lemma_max_abs_all(lhs@);
        lemma_max_abs_all(rhs@);
        lemma_bounds_multiply(x, y, x, y);
    }
    let mut lhs_even = [lhs[0], lhs[2], lhs[4], lhs[6]];
    let lhs_odd = [lhs[1], lhs[3], lhs[5], lhs[7]];
    let mut rhs_even = [rhs[0], rhs[2], rhs[4], rhs[6]];
    let rhs_odd = [rhs[1], rhs[3], rhs[5], rhs[7]];
    let ghost left_even = lhs_even@;
    let ghost right_even = rhs_even@;
    proof {
        lemma_max_abs_at_most(lhs_even@, x);
        lemma_max_abs_at_most(lhs_odd@, x);
        lemma_max_abs_at_most(rhs_even@, y);
        lemma_max_abs_at_most(rhs_odd@, y);
        lemma_bounds_multiply(max_abs(lhs_even@), max_abs(rhs_even@), x, y);
        lemma_bounds_multiply(max_abs(lhs_odd@), max_abs(rhs_odd@), x, y);
    }
    let mut prod_even = signed_conv4(&lhs_even, &rhs_even);
    let prod_odd = signed_conv4(&lhs_odd, &rhs_odd);
    add_mut(&mut lhs_even, lhs_odd.as_slice());
    add_mut(&mut rhs_even, rhs_odd.as_slice());
    proof {
        lemma_max_abs_at_most(lhs_even@, 2 * x);
        lemma_max_abs_at_most(rhs_even@, 2 * y);
        lemma_bounds_multiply(max_abs(lhs_even@), max_abs(rhs_even@), 2 * x, 2 * y);
        assert((2 * x) * (2 * y) == 4 * (x * y)) by (nonlinear_arith);
    }
    let mut prod_mix = signed_conv4(&lhs_even, &rhs_even);
    let ghost mix = prod_mix@;
    let ghost even = prod_even@;
    proof {
        assert forall|k: int| 0 <= k < 4 implies -(4 * (x * y)) <= #[trigger] prod_even@[k] <= 4 * (x * y) by {
            lemma_signed_sum_bound(left_even, right_even, k, 4, x, y);
        }
        assert forall|k: int| 0 <= k < 4 implies -(4 * (x * y)) <= #[trigger] prod_odd@[k] <= 4 * (x * y) by {
            lemma_signed_sum_bound(lhs_odd@, rhs_odd@, k, 4, x, y);
        }
        assert forall|k: int| 0 <= k < 4 implies -(4 * (4 * (x * y))) <= #[trigger] prod_mix@[k] <= 4 * (4 * (x
            * y)) by {
            lemma_signed_sum_bound(lhs_even@, rhs_even@, k, 4, 2 * x, 2 * y);
        }
    }
    sub_mut(&mut prod_mix, prod_even.as_slice());
    sub_mut(&mut prod_mix, prod_odd.as_slice());
    let mut i: usize = 1;
    while i < 4
        invariant
            1 <= i <= 4,
            prod_even@[0] == even[0],
            forall|k: int| 1 <= k < i ==> #[trigger] prod_even@[k] == even[k] + prod_odd@[k - 1],
            forall|k: int| i <= k < 4 ==> #[trigger] prod_even@[k] == even[k],
            forall|k: int| 0 <= k < 4 ==> -(4 * (x * y)) <= #[trigger] even[k] <= 4 * (x * y),
            forall|k: int| 0 <= k < 4 ==> -(4 * (x * y)) <= #[trigger] prod_odd@[k] <= 4 * (x * y),
            24 * (x * y) <= i64::MAX,
            0 <= x * y,
        decreases 4 - i,
    {
        prod_even[i] = prod_even[i] + prod_odd[i - 1];
        i += 1;
    }
    prod_even[0] = prod_even[0] - prod_odd[3];
    let output = [
        prod_even[0], prod_mix[0], prod_even[1], prod_mix[1], prod_even[2], prod_mix[2],
        prod_even[3], prod_mix[3],
    ];
    proof {
        assert forall|k: int| 0 <= k < 8 implies #[trigger] output@[k] == signed_conv(lhs@, rhs@, k) by {
            let half = k / 2;
            lemma_karatsuba(lhs@, rhs@, left_even, lhs_odd@, lhs_even@, right_even, rhs_odd@, rhs_even@, half);
            if k % 2 == 0 {
                assert(output@[k] == prod_even@[half]);
                if half > 0 {
                    assert(signed_conv(lhs@, rhs@, 2 * half) == signed_conv(left_even, right_even, half)
                        + signed_conv(lhs_odd@, rhs_odd@, half - 1));
                }
            } else {
                assert(output@[k] == prod_mix@[half]);
                assert(signed_conv(lhs@, rhs@, 2 * half + 1) == signed_conv(lhs_even@, rhs_even@, half)
                    - signed_conv(left_even, right_even, half) - signed_conv(lhs_odd@, rhs_odd@, half));
            }
        }
    }
    output
}

/// The convolution of two vectors of length 8, written to the front of
/// `output`: from a convolution and a signed convolution of length 4.
pub fn conv8(lhs: [i64; 8], rhs: [i64; 8], output: &mut [i64])
    requires
        old(output)@.len() >= 8,
        4 * max_abs(lhs@) <= i64::MAX,
        4 * max_abs(rhs@) <= i64::MAX,
        64 * (max_abs(lhs@) * max_abs(rhs@)) <= i64::MAX,
    ensures
        final(output)@.len() == old(output)@.len(),
        forall|k: int| 0 <= k < 8 ==> #[trigger] final(output)@[k] == cyclic_conv(lhs@, rhs@, k),
        forall|k: int| 8 <= k < old(output)@.len() ==> #[trigger] final(output)@[k] == old(output)@[k],
{
    let ghost x = max_abs(lhs@);
    let ghost y = max_abs(rhs@);
    proof {
        lemma_max_abs_all(lhs@);
        lemma_max_abs_all(rhs@);
        lemma_bounds_multiply(x, y, x, y);
    }
    let (lhs_p, lhs_m) = split_add_sub::<8, 4>(lhs);
    let (rhs_p, rhs_m) = split_add_sub::<8, 4>(rhs);
    proof {
        lemma_max_abs_at_most(lhs_p@, 2 * x);
        lemma_max_abs_at_most(lhs_m@, 2 * x);
        lemma_max_abs_at_most(rhs_p@, 2 * y);
        lemma_max_abs_at_most(rhs_m@, 2 * y);
        lemma_bounds_multiply(max_abs(lhs_p@), max_abs(rhs_p@), 2 * x, 2 * y);
        lemma_bounds_multiply(max_abs(lhs_m@), max_abs(rhs_m@), 2 * x, 2 * y);
        assert((2 * x) * (2 * y) == 4 * (x * y)) by (nonlinear_arith);
    }
    let left = signed_conv4(&lhs_m, &rhs_m);
    let mut right = [0i64; 4];
    conv4(lhs_p, rhs_p, &mut right);
    proof {
        lemma_max_abs_all(lhs_p@);
        lemma_max_abs_all(rhs_p@);
        lemma_max_abs_all(lhs_m@);
        lemma_max_abs_all(rhs_m@);
        assert forall|k: int| 0 <= k < 4 implies -(4 * (4 * (x * y))) <= #[trigger] right@[k] <= 4 * (4 * (x
            * y)) by {
            lemma_cyclic_sum_bound(lhs_p@, rhs_p@, k, 4, 2 * x, 2 * y);
        }
        assert forall|k: int| 0 <= k < 4 implies -(4 * (4 * (x * y))) <= #[trigger] left@[k] <= 4 * (4 * (x
            * y)) by {
            lemma_signed_sum_bound(lhs_m@, rhs_m@, k, 4, 2 * x, 2 * y);
        }
        assert forall|k: int| 0 <= k < 4 implies #[trigger] right@[k] + left@[k] == 2 * cyclic_conv(lhs@, rhs@, k)
            && right@[k] - left@[k] == 2 * cyclic_conv(lhs@, rhs@, k + 4) by {
            lemma_fft_trick(lhs@, rhs@, lhs_p@, lhs_m@, rhs_p@, rhs_m@, k);
        }
    }
    let mut i: usize = 0;
    while i < 4
        invariant
            i <= 4,
            output@.len() == old(output)@.len(),
            output@.len() >= 8,
            forall|k: int| 0 <= k < 4 ==> -(4 * (4 * (x * y))) <= #[trigger] right@[k] <= 4 * (4 * (x * y)),
            forall|k: int| 0 <= k < 4 ==> -(4 * (4 * (x * y))) <= #[trigger] left@[k] <= 4 * (4 * (x * y)),
            64 * (x * y) <= i64::MAX,
            0 <= x * y,
            forall|k: int| 0 <= k < 4 ==> #[trigger] right@[k] + left@[k] == 2 * cyclic_conv(lhs@, rhs@, k),
            forall|k: int| 0 <= k < 4 ==> #[trigger] right@[k] - left@[k] == 2 * cyclic_conv(lhs@, rhs@, k + 4),
            forall|k: int| 0 <= k < i ==> #[trigger] output@[k] == cyclic_conv(lhs@, rhs@, k),
            forall|k: int| 4 <= k < 4 + i ==> #[trigger] output@[k] == cyclic_conv(lhs@, rhs@, k),
            forall|k: int| 8 <= k < output@.len() ==> #[trigger] output@[k] == old(output)@[k],
        decreases 4 - i,
    {
        proof {
            lemma_shift_halves((left@[i as int] + right@[i as int]) as i64);
            assert(right@[i as int] + left@[i as int] == 2 * cyclic_conv(lhs@, rhs@, i as int));
            assert(right@[i as int] - left@[i as int] == 2 * cyclic_conv(lhs@, rhs@, i + 4));
        }
        let low = (left[i] + right[i]) >> 1;
        output[i] = low;
        output[i + 4] = right[i] - low;
        i += 1;
    }
}

/// The signed convolution of two vectors of length 16, from three signed
/// convolutions of length 8.
pub fn signed_conv16(lhs: &[i64; 16], rhs: &[i64; 16]) -> (output: [i64; 16])
    requires
        4 * max_abs(lhs@) <= i64::MAX,
        4 * max_abs(rhs@) <= i64::MAX,
        96 * (max_abs(lhs@) * max_abs(rhs@)) <= i64::MAX,
    ensures
        forall|k: int| 0 <= k < 16 ==> #[trigger] output@[k] == signed_conv(lhs@, rhs@, k),
{
    let ghost x = max_abs(lhs@);
    let ghost y = max_abs(rhs@);
    proof {
        lemma_max_abs_all(lhs@);
        lemma_max_abs_all(rhs@);
        lemma_bounds_multiply(x, y, x, y);
    }
    let mut lhs_even = [lhs[0], lhs[2], lhs[4], lhs[6], lhs[8], lhs[10], lhs[12], lhs[14]];
    let lhs_odd = [lhs[1], lhs[3], lhs[5], lhs[7], lhs[9], lhs[11], lhs[13], lhs[15]];
    let mut rhs_even = [rhs[0], rhs[2], rhs[4], rhs[6], rhs[8], rhs[10], rhs[12], rhs[14]];
    let rhs_odd = [rhs[1], rhs[3], rhs[5], rhs[7], rhs[9], rhs[11], rhs[13], rhs[15]];
    let ghost left_even = lhs_even@;
    let ghost right_even = rhs_even@;
    proof {
        lemma_max_abs_at_most(lhs_even@, x);
        lemma_max_abs_at_most(lhs_odd@, x);
        lemma_max_abs_at_most(rhs_even@, y);
        lemma_max_abs_at_most(rhs_odd@, y);
        lemma_bounds_multiply(max_abs(lhs_even@), max_abs(rhs_even@), x, y);
        lemma_bounds_multiply(max_abs(lhs_odd@), max_abs(rhs_odd@), x, y);
    }
    let mut prod_even = signed_conv8(&lhs_even, &rhs_even);
    let prod_odd = signed_conv8(&lhs_odd, &rhs_odd);
    add_mut(&mut lhs_even, lhs_odd.as_slice());
    add_mut(&mut rhs_even, rhs_odd.as_slice());
    proof {
        lemma_max_abs_at_most(lhs_even@, 2 * x);
        lemma_max_abs_at_most(rhs_even@, 2 * y);
        lemma_bounds_multiply(max_abs(lhs_even@), max_abs(rhs_even@), 2 * x, 2 * y);
        assert((2 * x) * (2 * y) == 4 * (x * y)) by (nonlinear_arith);
    }
    let mut prod_mix = signed_conv8(&lhs_even, &rhs_even);
    let ghost mix = prod_mix@;
    let ghost even = prod_even@;
    proof {
        assert forall|k: int| 0 <= k < 8 implies -(8 * (x * y)) <= #[trigger] prod_even@[k] <= 8 * (x * y) by {
            lemma_signed_sum_bound(left_even, right_even, k, 8, x, y);
        }
        assert forall|k: int| 0 <= k < 8 implies -(8 * (x * y)) <= #[trigger] prod_odd@[k] <= 8 * (x * y) by {
            lemma_signed_sum_bound(lhs_odd@, rhs_odd@, k, 8, x, y);
        }
        assert forall|k: int| 0 <= k < 8 implies -(8 * (4 * (x * y))) <= #[trigger] prod_mix@[k] <= 8 * (4 * (x
            * y)) by {
            lemma_signed_sum_bound(lhs_even@, rhs_even@, k, 8, 2 * x, 2 * y);
        }
    }
    sub_mut(&mut prod_mix, prod_even.as_slice());
    sub_mut(&mut prod_mix, prod_odd.as_slice());
    let mut i: usize = 1;
    while i < 8
        invariant
            1 <= i <= 8,
            prod_even@[0] == even[0],
            forall|k: int| 1 <= k < i ==> #[trigger] prod_even@[k] == even[k] + prod_odd@[k - 1],
            forall|k: int| i <= k < 8 ==> #[trigger] prod_even@[k] == even[k],
            forall|k: int| 0 <= k < 8 ==> -(8 * (x * y)) <= #[trigger] even[k] <= 8 * (x * y),
            forall|k: int| 0 <= k < 8 ==> -(8 * (x * y)) <= #[trigger] prod_odd@[k] <= 8 * (x * y),
            96 * (x * y) <= i64::MAX,
            0 <= x * y,
        decreases 8 - i,
    {
        prod_even[i] = prod_even[i] + prod_odd[i - 1];
        i += 1;
    }
    prod_even[0] = prod_even[0] - prod_odd[7];
    let output = [
        prod_even[0], prod_mix[0], prod_even[1], prod_mix[1], prod_even[2], prod_mix[2],
        prod_even[3], prod_mix[3], prod_even[4], prod_mix[4], prod_even[5], prod_mix[5],
        prod_even[6], prod_mix[6], prod_even[7], prod_mix[7],
    ];
    proof {
        assert forall|k: int| 0 <= k < 16 implies #[trigger] output@[k] == signed_conv(lhs@, rhs@, k) by {
            let half = k / 2;
            lemma_karatsuba(lhs@, rhs@, left_even, lhs_odd@, lhs_even@, right_even, rhs_odd@, rhs_even@, half);
            if k % 2 == 0 {
                assert(output@[k] == prod_even@[half]);
                if half > 0 {
                    assert(signed_conv(lhs@, rhs@, 2 * half) == signed_conv(left_even, right_even, half)
                        + signed_conv(lhs_odd@, rhs_odd@, half - 1));
                }
            } else {
                assert(output@[k] == prod_mix@[half]);
                assert(signed_conv(lhs@, rhs@, 2 * half + 1) == signed_conv(lhs_even@, rhs_even@, half)
                    - signed_conv(left_even, right_even, half) - signed_conv(lhs_odd@, rhs_odd@, half));
            }
        }
    }
    output
}

/// The convolution of two vectors of length 16, written to the front of
/// `output`: from a convolution and a signed convolution of length 8.
pub fn conv16(lhs: [i64; 16], rhs: [i64; 16], output: &mut [i64])
    requires
        old(output)@.len() >= 16,
        8 * max_abs(lhs@) <= i64::MAX,
        8 * max_abs(rhs@) <= i64::MAX,
        256 * (max_abs(lhs@) * max_abs(rhs@)) <= i64::MAX,
    ensures
        final(output)@.len() == old(output)@.len(),
        forall|k: int| 0 <= k < 16 ==> #[trigger] final(output)@[k] == cyclic_conv(lhs@, rhs@, k),
        forall|k: int| 16 <= k < old(output)@.len() ==> #[trigger] final(output)@[k] == old(output)@[k],
{
    let ghost x = max_abs(lhs@);
    let ghost y = max_abs(rhs@);
    proof {
        lemma_max_abs_all(lhs@);
        lemma_max_abs_all(rhs@);
        lemma_bounds_multiply(x, y, x, y);
    }
    let (lhs_p, lhs_m) = split_add_sub::<16, 8>(lhs);
    let (rhs_p, rhs_m) = split_add_sub::<16, 8>(rhs);
    proof {
        lemma_max_abs_at_most(lhs_p@, 2 * x);
        lemma_max_abs_at_most(lhs_m@, 2 * x);
        lemma_max_abs_at_most(rhs_p@, 2 * y);
        lemma_max_abs_at_most(rhs_m@, 2 * y);
        lemma_bounds_multiply(max_abs(lhs_p@), max_abs(rhs_p@), 2 * x, 2 * y);
        lemma_bounds_multiply(max_abs(lhs_m@), max_abs(rhs_m@), 2 * x, 2 * y);
        assert((2 * x) * (2 * y) == 4 * (x * y)) by (nonlinear_arith);
    }
    let left = signed_conv8(&lhs_m, &rhs_m);
    let mut right = [0i64; 8];
    conv8(lhs_p, rhs_p, &mut right);
    proof {
        lemma_max_abs_all(lhs_p@);
        lemma_max_abs_all(rhs_p@);
        lemma_max_abs_all(lhs_m@);
        lemma_max_abs_all(rhs_m@);
        assert forall|k: int| 0 <= k < 8 implies -(8 * (4 * (x * y))) <= #[trigger] right@[k] <= 8 * (4 * (x
            * y)) by {
            lemma_cyclic_sum_bound(lhs_p@, rhs_p@, k, 8, 2 * x, 2 * y);
        }
        assert forall|k: int| 0 <= k < 8 implies -(8 * (4 * (x * y))) <= #[trigger] left@[k] <= 8 * (4 * (x
            * y)) by {
            lemma_signed_sum_bound(lhs_m@, rhs_m@, k, 8, 2 * x, 2 * y);
        }
        assert forall|k: int| 0 <= k < 8 implies #[trigger] right@[k] + left@[k] == 2 * cyclic_conv(lhs@, rhs@, k)
            && right@[k] - left@[k] == 2 * cyclic_conv(lhs@, rhs@, k + 8) by {
            lemma_fft_trick(lhs@, rhs@, lhs_p@, lhs_m@, rhs_p@, rhs_m@, k);
        }
    }
    let mut i: usize = 0;
    while i < 8
        invariant
            i <= 8,
            output@.len() == old(output)@.len(),
            output@.len() >= 16,
            forall|k: int| 0 <= k < 8 ==> -(8 * (4 * (x * y))) <= #[trigger] right@[k] <= 8 * (4 * (x * y)),
            forall|k: int| 0 <= k < 8 ==> -(8 * (4 * (x * y))) <= #[trigger] left@[k] <= 8 * (4 * (x * y)),
            256 * (x * y) <= i64::MAX,
            0 <= x * y,
            forall|k: int| 0 <= k < 8 ==> #[trigger] right@[k] + left@[k] == 2 * cyclic_conv(lhs@, rhs@, k),
            forall|k: int| 0 <= k < 8 ==> #[trigger] right@[k] - left@[k] == 2 * cyclic_conv(lhs@, rhs@, k + 8),
            forall|k: int| 0 <= k < i ==> #[trigger] output@[k] == cyclic_conv(lhs@, rhs@, k),
            forall|k: int| 8 <= k < 8 + i ==> #[trigger] output@[k] == cyclic_conv(lhs@, rhs@, k),
            forall|k: int| 16 <= k < output@.len() ==> #[trigger] output@[k] == old(output)@[k],
        decreases 8 - i,
    {
        proof {
            lemma_shift_halves((left@[i as int] + right@[i as int]) as i64);
            assert(right@[i as int] + left@[i as int] == 2 * cyclic_conv(lhs@, rhs@, i as int));
            assert(right@[i as int] - left@[i as int] == 2 * cyclic_conv(lhs@, rhs@, i + 8));
        }
        let low = (left[i] + right[i]) >> 1;
        output[i] = low;
        output[i + 8] = right[i] - low;
        i += 1;
    }
}

/// Multiplies a vector of 32-bit values by the circulant MDS matrix of order
/// 8: the convolution of the vector with the matrix's first column.
pub fn apply_circulant_8_karat(input: [i64; 8]) -> (output: [i64; 8])
    requires
        forall|i: int| 0 <= i < 8 ==> 0 <= #[trigger] input@[i] <= u32::MAX,
    ensures
        forall|k: int|
            0 <= k < 8 ==> #[trigger] output@[k] == cyclic_conv(
                input@,
                circulant_column(MATRIX_CIRC_MDS_8_SML@),
                k,
            ),
        forall|k: int| 0 <= k < 8 ==> 0 <= #[trigger] output@[k] <= 8 * (u32::MAX * 128),
{
    let column = row_to_col(MATRIX_CIRC_MDS_8_SML);
    proof {
        assert forall|i: int| 0 <= i < 8 implies 0 <= #[trigger] column@[i] <= 128 by {
            assert(0 <= MATRIX_CIRC_MDS_8_SML@[if i == 0 { 0 } else { 8 - i }] <= 128);
        }
        lemma_max_abs_at_most(input@, u32::MAX as int);
        lemma_max_abs_at_most(column@, 128);
        lemma_bounds_multiply(max_abs(input@), max_abs(column@), u32::MAX as int, 128);
    }
    let mut output = [0i64; 8];
    conv8(input, column, &mut output);
    proof {
        assert forall|k: int| 0 <= k < 8 implies 0 <= #[trigger] output@[k] <= 8 * (u32::MAX * 128) by {
            lemma_cyclic_sum_bound(input@, column@, k, 8, u32::MAX as int, 128);
            lemma_cyclic_sum_nonnegative(input@, column@, k, 8);
        }
    }
    output
}

/// Multiplies a vector of 32-bit values by the circulant MDS matrix of order
/// 12: the convolution of the vector with the matrix's first column.
pub fn apply_circulant_12_karat(input: [i64; 12]) -> (output: [i64; 12])
    requires
        forall|i: int| 0 <= i < 12 ==> 0 <= #[trigger] input@[i] <= u32::MAX,
    ensures
        forall|k: int|
            0 <= k < 12 ==> #[trigger] output@[k] == cyclic_conv(
                input@,
                circulant_column(MATRIX_CIRC_MDS_12_SML@),
                k,
            ),
        forall|k: int| 0 <= k < 12 ==> 0 <= #[trigger] output@[k] <= 12 * (u32::MAX * 128),
{
    let column = row_to_col(MATRIX_CIRC_MDS_12_SML);
    proof {
        assert forall|i: int| 0 <= i < 12 implies 0 <= #[trigger] column@[i] <= 128 by {
            assert(0 <= MATRIX_CIRC_MDS_12_SML@[if i == 0 { 0 } else { 12 - i }] <= 128);
        }
        lemma_max_abs_at_most(input@, u32::MAX as int);
        lemma_max_abs_at_most(column@, 128);
        lemma_bounds_multiply(max_abs(input@), max_abs(column@), u32::MAX as int, 128);
    }
    let output = conv12(input, column);
    proof {
        assert forall|k: int| 0 <= k < 12 implies 0 <= #[trigger] output@[k] <= 12 * (u32::MAX * 128) by {
            lemma_cyclic_sum_bound(input@, column@, k, 12, u32::MAX as int, 128);
            lemma_cyclic_sum_nonnegative(input@, column@, k, 12);
        }
    }
    output
}

/// Multiplies a vector of 32-bit values by the circulant MDS matrix of order
/// 16: the convolution of the vector with the matrix's first column.
pub fn apply_circulant_16_karat(input: [i64; 16]) -> (output: [i64; 16])
    requires
        forall|i: int| 0 <= i < 16 ==> 0 <= #[trigger] input@[i] <= u32::MAX,
    ensures
        forall|k: int|
            0 <= k < 16 ==> #[trigger] output@[k] == cyclic_conv(
                input@,
                circulant_column(MATRIX_CIRC_MDS_16_SML@),
                k,
            ),
        forall|k: int| 0 <= k < 16 ==> 0 <= #[trigger] output@[k] <= 16 * (u32::MAX * 128),
{
    let column = row_to_col(MATRIX_CIRC_MDS_16_SML);
    proof {
        assert forall|i: int| 0 <= i < 16 implies 0 <= #[trigger] column@[i] <= 128 by {
            assert(0 <= MATRIX_CIRC_MDS_16_SML@[if i == 0 { 0 } else { 16 - i }] <= 128);
        }
        lemma_max_abs_at_most(input@, u32::MAX as int);
        lemma_max_abs_at_most(column@, 128);
        lemma_bounds_multiply(max_abs(input@), max_abs(column@), u32::MAX as int, 128);
    }
    let mut output = [0i64; 16];
    conv16(input, column, &mut output);
    proof {
        assert forall|k: int| 0 <= k < 16 implies 0 <= #[trigger] output@[k] <= 16 * (u32::MAX * 128) by {
            lemma_cyclic_sum_bound(input@, column@, k, 16, u32::MAX as int, 128);
            lemma_cyclic_sum_nonnegative(input@, column@, k, 16);
        }
    }
    output
}

/// A vector of `n` zeros.
fn zeros(n: usize) -> (v: Vec<i64>)
    ensures
        v@.len() == n,
        forall|i: int| 0 <= i < n ==> #[trigger] v@[i] == 0,
{
    let mut v: Vec<i64> = Vec::new();
    let mut i: usize = 0;
    while i < n
        invariant
            i <= n,
            v@.len() == i,
            forall|j: int| 0 <= j < i ==> #[trigger] v@[j] == 0,
        decreases n - i,
    {
        v.push(0);
        i += 1;
    }
    v
}

/// The signed convolution of two vectors whose length is a power of two, by
/// splitting into even-indexed and odd-indexed entries.
pub fn signed_conv_karat_generic(lhs: &[i64], rhs: &[i64], output: &mut [i64])
    requires
        is_power_of_two(lhs@.len()),
        rhs@.len() == lhs@.len(),
        old(output)@.len() == lhs@.len(),
        lhs@.len() * max_abs(lhs@) <= i64::MAX,
        lhs@.len() * max_abs(rhs@) <= i64::MAX,
        2 * budget(lhs@.len() as int, max_abs(lhs@), max_abs(rhs@)) <= i64::MAX,
    ensures
        final(output)@.len() == old(output)@.len(),
        forall|k: int| 0 <= k < lhs@.len() ==> #[trigger] final(output)@[k] == signed_conv(lhs@, rhs@, k),
    decreases lhs@.len(),
{
    let n = lhs.len();
    let ghost x = max_abs(lhs@);
    let ghost y = max_abs(rhs@);
    proof {
        lemma_max_abs_all(lhs@);
        lemma_max_abs_all(rhs@);
        lemma_bounds_multiply(x, y, x, y);
    }
    if n == 1 {
        proof {
            lemma_entry_product(lhs@, rhs@, 0, 0);
            reveal_with_fuel(signed_sum, 2);
            assert(budget(1, x, y) == x * y) by (nonlinear_arith)
                requires
                    budget(1, x, y) == (1 * 1) * (x * y),
            ;
        }
        output[0] = lhs[0] * rhs[0];
    } else if n == 2 {
        proof {
            lemma_entry_product(lhs@, rhs@, 0, 0);
            lemma_entry_product(lhs@, rhs@, 1, 1);
            lemma_entry_product(lhs@, rhs@, 1, 0);
            lemma_entry_product(lhs@, rhs@, 0, 1);
            reveal_with_fuel(signed_sum, 3);
            assert(budget(2, x, y) == 4 * (x * y)) by (nonlinear_arith)
                requires
                    budget(2, x, y) == (2 * 2) * (x * y),
            ;
        }
        let first = lhs[0] * rhs[0] - lhs[1] * rhs[1];
        let second = lhs[1] * rhs[0] + lhs[0] * rhs[1];
        output[0] = first;
        output[1] = second;
    } else if n == 4 {
        proof {
            assert(budget(4, x, y) == 16 * (x * y)) by (nonlinear_arith)
                requires
                    budget(4, x, y) == (4 * 4) * (x * y),
            ;
        }
        signed_conv4_slice(lhs, rhs, output);
    } else {
        let half = n / 2;
        proof {
            assert(n >= 2 && n % 2 == 0 && is_power_of_two(half as nat));
            lemma_half_budget(n as int, half as int, x, y, x, y);
        }
        let (lhs_even, lhs_odd, lhs_mix) = split_eom(lhs);
        let (rhs_even, rhs_odd, rhs_mix) = split_eom(rhs);
        let mut evens = zeros(half);
        let mut odds = zeros(half);
        let mut extra = zeros(half);
        proof {
            lemma_max_abs_at_most(lhs_even@, x);
            lemma_max_abs_at_most(lhs_odd@, x);
            lemma_max_abs_at_most(lhs_mix@, 2 * x);
            lemma_max_abs_at_most(rhs_even@, y);
            lemma_max_abs_at_most(rhs_odd@, y);
            lemma_max_abs_at_most(rhs_mix@, 2 * y);
            lemma_half_budget(n as int, half as int, x, y, max_abs(lhs_even@), max_abs(rhs_even@));
            lemma_half_budget(n as int, half as int, x, y, max_abs(lhs_odd@), max_abs(rhs_odd@));
            lemma_half_budget(n as int, half as int, x, y, max_abs(lhs_mix@), max_abs(rhs_mix@));
        }
        signed_conv_karat_generic(lhs_even.as_slice(), rhs_even.as_slice(), evens.as_mut_slice());
        signed_conv_karat_generic(lhs_odd.as_slice(), rhs_odd.as_slice(), extra.as_mut_slice());
        signed_conv_karat_generic(lhs_mix.as_slice(), rhs_mix.as_slice(), odds.as_mut_slice());
        let ghost unit = half * (x * y);
        let ghost even = evens@;
        let ghost mix = odds@;
        proof {
            lemma_max_abs_all(lhs_even@);
            lemma_max_abs_all(lhs_odd@);
            lemma_max_abs_all(lhs_mix@);
            lemma_max_abs_all(rhs_even@);
            lemma_max_abs_all(rhs_odd@);
            lemma_max_abs_all(rhs_mix@);
            assert((2 * x) * (2 * y) == 4 * (x * y)) by (nonlinear_arith);
            assert forall|k: int| 0 <= k < half implies -unit <= #[trigger] evens@[k] <= unit by {
                lemma_signed_sum_bound(lhs_even@, rhs_even@, k, half as nat, x, y);
            }
            assert forall|k: int| 0 <= k < half implies -unit <= #[trigger] extra@[k] <= unit by {
                lemma_signed_sum_bound(lhs_odd@, rhs_odd@, k, half as nat, x, y);
            }
            assert forall|k: int| 0 <= k < half implies -(4 * unit) <= #[trigger] odds@[k] <= 4 * unit by {
                lemma_signed_sum_bound(lhs_mix@, rhs_mix@, k, half as nat, 2 * x, 2 * y);
            }
        }
        sub_mut(odds.as_mut_slice(), evens.as_slice());
        sub_mut(odds.as_mut_slice(), extra.as_slice());
        let mut i: usize = 1;
        while i < half
            invariant
                1 <= i <= half,
                evens@.len() == half,
                extra@.len() == half,
                even.len() == half,
                evens@[0] == even[0],
                forall|k: int| 1 <= k < i ==> #[trigger] evens@[k] == even[k] + extra@[k - 1],
                forall|k: int| i <= k < half ==> #[trigger] evens@[k] == even[k],
                forall|k: int| 0 <= k < half ==> -unit <= #[trigger] even[k] <= unit,
                forall|k: int| 0 <= k < half ==> -unit <= #[trigger] extra@[k] <= unit,
                0 <= unit,
                4 * unit <= i64::MAX,
            decreases half - i,
        {
            evens[i] = evens[i] + extra[i - 1];
            i += 1;
        }
        evens[0] = evens[0] - extra[half - 1];
        let mut j: usize = 0;
        while j < half
            invariant
                j <= half,
                n == 2 * half,
                output@.len() == n,
                evens@.len() == half,
                odds@.len() == half,
                forall|k: int| 0 <= k < j ==> #[trigger] output@[k] == evens@[k],
                forall|k: int| half <= k < half + j ==> #[trigger] output@[k] == odds@[k - half],
            decreases half - j,
        {
            output[j] = evens[j];
            output[j + half] = odds[j];
            j += 1;
        }
        let ghost joined = output@;
        rearrange(output);
        proof {
            assert forall|k: int| 0 <= k < n implies #[trigger] output@[k] == signed_conv(lhs@, rhs@, k) by {
                let m = k / 2;
                lemma_karatsuba(lhs@, rhs@, lhs_even@, lhs_odd@, lhs_mix@, rhs_even@, rhs_odd@, rhs_mix@, m);
                if k % 2 == 0 {
                    assert(output@[2 * m] == joined[m]);
                    assert(joined[m] == evens@[m]);
                } else {
                    assert(output@[2 * m + 1] == joined[m + half]);
                    assert(joined[m + half] == odds@[m]);
                    assert(odds@[m] == mix[m] - even[m] - extra@[m]);
                }
            }
        }
    }
}

/// The convolution of two vectors whose length is a power of two, by halving:
/// a convolution of the halves' sums and a signed convolution of their
/// differences.
pub fn conv_karat_generic(lhs: &[i64], rhs: &[i64], output: &mut [i64])
    requires
        is_power_of_two(lhs@.len()),
        rhs@.len() == lhs@.len(),
        old(output)@.len() == lhs@.len(),
        lhs@.len() * max_abs(lhs@) <= i64::MAX,
        lhs@.len() * max_abs(rhs@) <= i64::MAX,
        4 * budget(lhs@.len() as int, max_abs(lhs@), max_abs(rhs@)) <= i64::MAX,
    ensures
        final(output)@.len() == old(output)@.len(),
        forall|k: int| 0 <= k < lhs@.len() ==> #[trigger] final(output)@[k] == cyclic_conv(lhs@, rhs@, k),
    decreases lhs@.len(),
{
    let n = lhs.len();
    let ghost x = max_abs(lhs@);
    let ghost y = max_abs(rhs@);
    proof {
        lemma_max_abs_all(lhs@);
        lemma_max_abs_all(rhs@);
        lemma_bounds_multiply(x, y, x, y);
    }
    if n == 1 {
        proof {
            lemma_entry_product(lhs@, rhs@, 0, 0);
            reveal_with_fuel(cyclic_sum, 2);
            assert(budget(1, x, y) == x * y) by (nonlinear_arith)
                requires
                    budget(1, x, y) == (1 * 1) * (x * y),
            ;
        }
        output[0] = lhs[0] * rhs[0];
    } else if n == 2 {
        proof {
            lemma_entry_product(lhs@, rhs@, 0, 0);
            lemma_entry_product(lhs@, rhs@, 1, 1);
            lemma_entry_product(lhs@, rhs@, 1, 0);
            lemma_entry_product(lhs@, rhs@, 0, 1);
            reveal_with_fuel(cyclic_sum, 3);
            assert(budget(2, x, y) == 4 * (x * y)) by (nonlinear_arith)
                requires
                    budget(2, x, y) == (2 * 2) * (x * y),
            ;
        }
        let first = lhs[0] * rhs[0] + lhs[1] * rhs[1];
        let second = lhs[1] * rhs[0] + lhs[0] * rhs[1];
        output[0] = first;
        output[1] = second;
    } else if n == 4 {
        proof {
            assert(budget(4, x, y) == 16 * (x * y)) by (nonlinear_arith)
                requires
                    budget(4, x, y) == (4 * 4) * (x * y),
            ;
            let len = lhs@.len() as int;
            assert(len * x == 4 * x && len * y == 4 * y) by (nonlinear_arith)
                requires
                    len == 4,
            ;
        }
        conv4_slice(lhs, rhs, output);
    } else {
        let half = n / 2;
        proof {
            assert(n >= 2 && n % 2 == 0 && is_power_of_two(half as nat));
            lemma_half_budget(n as int, half as int, x, y, x, y);
        }
        let lhs_right = slice_subrange(lhs, half, n);
        let rhs_right = slice_subrange(rhs, half, n);
        let mut lhs_p = slice_to_vec(slice_subrange(lhs, 0, half));
        let mut lhs_m = slice_to_vec(slice_subrange(lhs, 0, half));
        let mut rhs_p = slice_to_vec(slice_subrange(rhs, 0, half));
        let mut rhs_m = slice_to_vec(slice_subrange(rhs, 0, half));
        add_mut(lhs_p.as_mut_slice(), lhs_right);
        sub_mut(lhs_m.as_mut_slice(), lhs_right);
        add_mut(rhs_p.as_mut_slice(), rhs_right);
        sub_mut(rhs_m.as_mut_slice(), rhs_right);
        let mut left = zeros(half);
        let mut right = zeros(half);
        proof {
            lemma_max_abs_at_most(lhs_p@, 2 * x);
            lemma_max_abs_at_most(lhs_m@, 2 * x);
            lemma_max_abs_at_most(rhs_p@, 2 * y);
            lemma_max_abs_at_most(rhs_m@, 2 * y);
            lemma_half_budget(n as int, half as int, x, y, max_abs(lhs_p@), max_abs(rhs_p@));
            lemma_half_budget(n as int, half as int, x, y, max_abs(lhs_m@), max_abs(rhs_m@));
        }
        signed_conv_karat_generic(lhs_m.as_slice(), rhs_m.as_slice(), left.as_mut_slice());
        conv_karat_generic(lhs_p.as_slice(), rhs_p.as_slice(), right.as_mut_slice());
        let ghost unit = half * (x * y);
        proof {
            lemma_max_abs_all(lhs_p@);
            lemma_max_abs_all(lhs_m@);
            lemma_max_abs_all(rhs_p@);
            lemma_max_abs_all(rhs_m@);
            assert((2 * x) * (2 * y) == 4 * (x * y)) by (nonlinear_arith);
            assert forall|k: int| 0 <= k < half implies -(4 * unit) <= #[trigger] right@[k] <= 4 * unit by {
                lemma_cyclic_sum_bound(lhs_p@, rhs_p@, k, half as nat, 2 * x, 2 * y);
            }
            assert forall|k: int| 0 <= k < half implies -(4 * unit) <= #[trigger] left@[k] <= 4 * unit by {
                lemma_signed_sum_bound(lhs_m@, rhs_m@, k, half as nat, 2 * x, 2 * y);
            }
            assert forall|k: int| 0 <= k < half implies #[trigger] right@[k] + left@[k] == 2 * cyclic_conv(
                lhs@,
                rhs@,
                k,
            ) && right@[k] - left@[k] == 2 * cyclic_conv(lhs@, rhs@, k + half) by {
                lemma_fft_trick(lhs@, rhs@, lhs_p@, lhs_m@, rhs_p@, rhs_m@, k);
            }
        }
        let mut i: usize = 0;
        while i < half
            invariant
                i <= half,
                n == 2 * half,
                output@.len() == n,
                left@.len() == half,
                right@.len() == half,
                forall|k: int| 0 <= k < half ==> -(4 * unit) <= #[trigger] right@[k] <= 4 * unit,
                forall|k: int| 0 <= k < half ==> -(4 * unit) <= #[trigger] left@[k] <= 4 * unit,
                0 <= unit,
                8 * unit <= i64::MAX,
                forall|k: int| 0 <= k < half ==> #[trigger] right@[k] + left@[k] == 2 * cyclic_conv(lhs@, rhs@, k),
                forall|k: int|
                    0 <= k < half ==> #[trigger] right@[k] - left@[k] == 2 * cyclic_conv(lhs@, rhs@, k + half),
                forall|k: int| 0 <= k < i ==> #[trigger] output@[k] == cyclic_conv(lhs@, rhs@, k),
                forall|k: int| half <= k < half + i ==> #[trigger] output@[k] == cyclic_conv(lhs@, rhs@, k),
            decreases half - i,
        {
            proof {
                lemma_shift_halves((left@[i as int] + right@[i as int]) as i64);
                assert(right@[i as int] + left@[i as int] == 2 * cyclic_conv(lhs@, rhs@, i as int));
                assert(right@[i as int] - left@[i as int] == 2 * cyclic_conv(lhs@, rhs@, i + half));
            }
            let low = (left[i] + right[i]) >> 1;
            output[i] = low;
            output[i + half] = right[i] - low;
            i += 1;
        }
    }
}

/// The signed convolution of two vectors of length 32, from three signed
/// convolutions of length 16.
pub fn signed_conv32(lhs: &[i64; 32], rhs: &[i64; 32]) -> (output: [i64; 32])
    requires
        8 * max_abs(lhs@) <= i64::MAX,
        8 * max_abs(rhs@) <= i64::MAX,
        384 * (max_abs(lhs@) * max_abs(rhs@)) <= i64::MAX,
    ensures
        forall|k: int| 0 <= k < 32 ==> #[trigger] output@[k] == signed_conv(lhs@, rhs@, k),
{
    let ghost x = max_abs(lhs@);
    let ghost y = max_abs(rhs@);
    proof {
        lemma_max_abs_all(lhs@);
        lemma_max_abs_all(rhs@);
        lemma_bounds_multiply(x, y, x, y);
    }
    let mut lhs_even = [
        lhs[0], lhs[2], lhs[4], lhs[6], lhs[8], lhs[10], lhs[12], lhs[14], lhs[16], lhs[18],
        lhs[20], lhs[22], lhs[24], lhs[26], lhs[28], lhs[30],
    ];
    let lhs_odd = [
        lhs[1], lhs[3], lhs[5], lhs[7], lhs[9], lhs[11], lhs[13], lhs[15], lhs[17], lhs[19],
        lhs[21], lhs[23], lhs[25], lhs[27], lhs[29], lhs[31],
    ];
    let mut rhs_even = [
        rhs[0], rhs[2], rhs[4], rhs[6], rhs[8], rhs[10], rhs[12], rhs[14], rhs[16], rhs[18],
        rhs[20], rhs[22], rhs[24], rhs[26], rhs[28], rhs[30],
    ];
    let rhs_odd = [
        rhs[1], rhs[3], rhs[5], rhs[7], rhs[9], rhs[11], rhs[13], rhs[15], rhs[17], rhs[19],
        rhs[21], rhs[23], rhs[25], rhs[27], rhs[29], rhs[31],
    ];
    let ghost left_even = lhs_even@;
    let ghost right_even = rhs_even@;
    proof {
        lemma_max_abs_at_most(lhs_even@, x);
        lemma_max_abs_at_most(lhs_odd@, x);
        lemma_max_abs_at_most(rhs_even@, y);
        lemma_max_abs_at_most(rhs_odd@, y);
        lemma_bounds_multiply(max_abs(lhs_even@), max_abs(rhs_even@), x, y);
        lemma_bounds_multiply(max_abs(lhs_odd@), max_abs(rhs_odd@), x, y);
    }
    let mut prod_even = signed_conv16(&lhs_even, &rhs_even);
    let prod_odd = signed_conv16(&lhs_odd, &rhs_odd);
    add_mut(&mut lhs_even, lhs_odd.as_slice());
    add_mut(&mut rhs_even, rhs_odd.as_slice());
    proof {
        lemma_max_abs_at_most(lhs_even@, 2 * x);
        lemma_max_abs_at_most(rhs_even@, 2 * y);
        lemma_bounds_multiply(max_abs(lhs_even@), max_abs(rhs_even@), 2 * x, 2 * y);
        assert((2 * x) * (2 * y) == 4 * (x * y)) by (nonlinear_arith);
    }
    let mut prod_mix = signed_conv16(&lhs_even, &rhs_even);
    let ghost mix = prod_mix@;
    let ghost even = prod_even@;
    proof {
        assert forall|k: int| 0 <= k < 16 implies -(16 * (x * y)) <= #[trigger] prod_even@[k] <= 16 * (x * y) by {
            lemma_signed_sum_bound(left_even, right_even, k, 16, x, y);
        }
        assert forall|k: int| 0 <= k < 16 implies -(16 * (x * y)) <= #[trigger] prod_odd@[k] <= 16 * (x * y) by {
            lemma_signed_sum_bound(lhs_odd@, rhs_odd@, k, 16, x, y);
        }
        assert forall|k: int| 0 <= k < 16 implies -(16 * (4 * (x * y))) <= #[trigger] prod_mix@[k] <= 16 * (4 * (x
            * y)) by {
            lemma_signed_sum_bound(lhs_even@, rhs_even@, k, 16, 2 * x, 2 * y);
        }
    }
    sub_mut(&mut prod_mix, prod_even.as_slice());
    sub_mut(&mut prod_mix, prod_odd.as_slice());
    let mut i: usize = 1;
    while i < 16
        invariant
            1 <= i <= 16,
            prod_even@[0] == even[0],
            forall|k: int| 1 <= k < i ==> #[trigger] prod_even@[k] == even[k] + prod_odd@[k - 1],
            forall|k: int| i <= k < 16 ==> #[trigger] prod_even@[k] == even[k],
            forall|k: int| 0 <= k < 16 ==> -(16 * (x * y)) <= #[trigger] even[k] <= 16 * (x * y),
            forall|k: int| 0 <= k < 16 ==> -(16 * (x * y)) <= #[trigger] prod_odd@[k] <= 16 * (x * y),
            384 * (x * y) <= i64::MAX,
            0 <= x * y,
        decreases 16 - i,
    {
        prod_even[i] = prod_even[i] + prod_odd[i - 1];
        i += 1;
    }
    prod_even[0] = prod_even[0] - prod_odd[15];
    let output = [
        prod_even[0], prod_mix[0], prod_even[1], prod_mix[1], prod_even[2], prod_mix[2],
        prod_even[3], prod_mix[3], prod_even[4], prod_mix[4], prod_even[5], prod_mix[5],
        prod_even[6], prod_mix[6], prod_even[7], prod_mix[7], prod_even[8], prod_mix[8],
        prod_even[9], prod_mix[9], prod_even[10], prod_mix[10], prod_even[11], prod_mix[11],
        prod_even[12], prod_mix[12], prod_even[13], prod_mix[13], prod_even[14], prod_mix[14],
        prod_even[15], prod_mix[15],
    ];
    proof {
        assert forall|k: int| 0 <= k < 32 implies #[trigger] output@[k] == signed_conv(lhs@, rhs@, k) by {
            let half = k / 2;
            lemma_karatsuba(lhs@, rhs@, left_even, lhs_odd@, lhs_even@, right_even, rhs_odd@, rhs_even@, half);
            if k % 2 == 0 {
                assert(output@[k] == prod_even@[half]);
                if half > 0 {
                    assert(signed_conv(lhs@, rhs@, 2 * half) == signed_conv(left_even, right_even, half)
                        + signed_conv(lhs_odd@, rhs_odd@, half - 1));
                }
            } else {
                assert(output@[k] == prod_mix@[half]);
                assert(signed_conv(lhs@, rhs@, 2 * half + 1) == signed_conv(lhs_even@, rhs_even@, half)
                    - signed_conv(left_even, right_even, half) - signed_conv(lhs_odd@, rhs_odd@, half));
            }
        }
    }
    output
}

/// The convolution of two vectors of length 32, written to the front of
/// `output`: from a convolution and a signed convolution of length 16.
pub fn conv32(lhs: [i64; 32], rhs: [i64; 32], output: &mut [i64])
    requires
        old(output)@.len() >= 32,
        16 * max_abs(lhs@) <= i64::MAX,
        16 * max_abs(rhs@) <= i64::MAX,
        1024 * (max_abs(lhs@) * max_abs(rhs@)) <= i64::MAX,
    ensures
        final(output)@.len() == old(output)@.len(),
        forall|k: int| 0 <= k < 32 ==> #[trigger] final(output)@[k] == cyclic_conv(lhs@, rhs@, k),
        forall|k: int| 32 <= k < old(output)@.len() ==> #[trigger] final(output)@[k] == old(output)@[k],
{
    let ghost x = max_abs(lhs@);
    let ghost y = max_abs(rhs@);
    proof {
        lemma_max_abs_all(lhs@);
        lemma_max_abs_all(rhs@);
        lemma_bounds_multiply(x, y, x, y);
    }
    let (lhs_p, lhs_m) = split_add_sub::<32, 16>(lhs);
    let (rhs_p, rhs_m) = split_add_sub::<32, 16>(rhs);
    proof {
        lemma_max_abs_at_most(lhs_p@, 2 * x);
        lemma_max_abs_at_most(lhs_m@, 2 * x);
        lemma_max_abs_at_most(rhs_p@, 2 * y);
        lemma_max_abs_at_most(rhs_m@, 2 * y);
        lemma_bounds_multiply(max_abs(lhs_p@), max_abs(rhs_p@), 2 * x, 2 * y);
        lemma_bounds_multiply(max_abs(lhs_m@), max_abs(rhs_m@), 2 * x, 2 * y);
        assert((2 * x) * (2 * y) == 4 * (x * y)) by (nonlinear_arith);
    }
    let left = signed_conv16(&lhs_m, &rhs_m);
    let mut right = [0i64; 16];
    conv16(lhs_p, rhs_p, &mut right);
    proof {
        lemma_max_abs_all(lhs_p@);
        lemma_max_abs_all(rhs_p@);
        lemma_max_abs_all(lhs_m@);
        lemma_max_abs_all(rhs_m@);
        assert forall|k: int| 0 <= k < 16 implies -(16 * (4 * (x * y))) <= #[trigger] right@[k] <= 16 * (4 * (x
            * y)) by {
            lemma_cyclic_sum_bound(lhs_p@, rhs_p@, k, 16, 2 * x, 2 * y);
        }
        assert forall|k: int| 0 <= k < 16 implies -(16 * (4 * (x * y))) <= #[trigger] left@[k] <= 16 * (4 * (x
            * y)) by {
            lemma_signed_sum_bound(lhs_m@, rhs_m@, k, 16, 2 * x, 2 * y);
        }
        assert forall|k: int| 0 <= k < 16 implies #[trigger] right@[k] + left@[k] == 2 * cyclic_conv(lhs@, rhs@, k)
            && right@[k] - left@[k] == 2 * cyclic_conv(lhs@, rhs@, k + 16) by {
            lemma_fft_trick(lhs@, rhs@, lhs_p@, lhs_m@, rhs_p@, rhs_m@, k);
        }
    }
    let mut i: usize = 0;
    while i < 16
        invariant
            i <= 16,
            output@.len() == old(output)@.len(),
            output@.len() >= 32,
            forall|k: int| 0 <= k < 16 ==> -(16 * (4 * (x * y))) <= #[trigger] right@[k] <= 16 * (4 * (x * y)),
            forall|k: int| 0 <= k < 16 ==> -(16 * (4 * (x * y))) <= #[trigger] left@[k] <= 16 * (4 * (x * y)),
            1024 * (x * y) <= i64::MAX,
            0 <= x * y,
            forall|k: int| 0 <= k < 16 ==> #[trigger] right@[k] + left@[k] == 2 * cyclic_conv(lhs@, rhs@, k),
            forall|k: int| 0 <= k < 16 ==> #[trigger] right@[k] - left@[k] == 2 * cyclic_conv(lhs@, rhs@, k + 16),
            forall|k: int| 0 <= k < i ==> #[trigger] output@[k] == cyclic_conv(lhs@, rhs@, k),
            forall|k: int| 16 <= k < 16 + i ==> #[trigger] output@[k] == cyclic_conv(lhs@, rhs@, k),
            forall|k: int| 32 <= k < output@.len() ==> #[trigger] output@[k] == old(output)@[k],
        decreases 16 - i,
    {
        proof {
            lemma_shift_halves((left@[i as int] + right@[i as int]) as i64);
            assert(right@[i as int] + left@[i as int] == 2 * cyclic_conv(lhs@, rhs@, i as int));
            assert(right@[i as int] - left@[i as int] == 2 * cyclic_conv(lhs@, rhs@, i + 16));
        }
        let low = (left[i] + right[i]) >> 1;
        output[i] = low;
        output[i + 16] = right[i] - low;
        i += 1;
    }
}

/// The convolution of two vectors of length 64, written to the front of
/// `output`: from a convolution and a signed convolution of length 32.
pub fn conv64(lhs: [i64; 64], rhs: [i64; 64], output: &mut [i64])
    requires
        old(output)@.len() >= 64,
        32 * max_abs(lhs@) <= i64::MAX,
        32 * max_abs(rhs@) <= i64::MAX,
        4096 * (max_abs(lhs@) * max_abs(rhs@)) <= i64::MAX,
    ensures
        final(output)@.len() == old(output)@.len(),
        forall|k: int| 0 <= k < 64 ==> #[trigger] final(output)@[k] == cyclic_conv(lhs@, rhs@, k),
        forall|k: int| 64 <= k < old(output)@.len() ==> #[trigger] final(output)@[k] == old(output)@[k],
{
    let ghost x = max_abs(lhs@);
    let ghost y = max_abs(rhs@);
    proof {
        lemma_max_abs_all(lhs@);
        lemma_max_abs_all(rhs@);
        lemma_bounds_multiply(x, y, x, y);
    }
    let (lhs_p, lhs_m) = split_add_sub::<64, 32>(lhs);
    let (rhs_p, rhs_m) = split_add_sub::<64, 32>(rhs);
    proof {
        lemma_max_abs_at_most(lhs_p@, 2 * x);
        lemma_max_abs_at_most(lhs_m@, 2 * x);
        lemma_max_abs_at_most(rhs_p@, 2 * y);
        lemma_max_abs_at_most(rhs_m@, 2 * y);
        lemma_bounds_multiply(max_abs(lhs_p@), max_abs(rhs_p@), 2 * x, 2 * y);
        lemma_bounds_multiply(max_abs(lhs_m@), max_abs(rhs_m@), 2 * x, 2 * y);
        assert((2 * x) * (2 * y) == 4 * (x * y)) by (nonlinear_arith);
    }
    let left = signed_conv32(&lhs_m, &rhs_m);
    let mut right = [0i64; 32];
    conv32(lhs_p, rhs_p, &mut right);
    proof {
        lemma_max_abs_all(lhs_p@);
        lemma_max_abs_all(rhs_p@);
        lemma_max_abs_all(lhs_m@);
        lemma_max_abs_all(rhs_m@);
        assert forall|k: int| 0 <= k < 32 implies -(32 * (4 * (x * y))) <= #[trigger] right@[k] <= 32 * (4 * (x
            * y)) by {
            lemma_cyclic_sum_bound(lhs_p@, rhs_p@, k, 32, 2 * x, 2 * y);
        }
        assert forall|k: int| 0 <= k < 32 implies -(32 * (4 * (x * y))) <= #[trigger] left@[k] <= 32 * (4 * (x
            * y)) by {
            lemma_signed_sum_bound(lhs_m@, rhs_m@, k, 32, 2 * x, 2 * y);
        }
        assert forall|k: int| 0 <= k < 32 implies #[trigger] right@[k] + left@[k] == 2 * cyclic_conv(lhs@, rhs@, k)
            && right@[k] - left@[k] == 2 * cyclic_conv(lhs@, rhs@, k + 32) by {
            lemma_fft_trick(lhs@, rhs@, lhs_p@, lhs_m@, rhs_p@, rhs_m@, k);
        }
    }
    let mut i: usize = 0;
    while i < 32
        invariant
            i <= 32,
            output@.len() == old(output)@.len(),
            output@.len() >= 64,
            forall|k: int| 0 <= k < 32 ==> -(32 * (4 * (x * y))) <= #[trigger] right@[k] <= 32 * (4 * (x * y)),
            forall|k: int| 0 <= k < 32 ==> -(32 * (4 * (x * y))) <= #[trigger] left@[k] <= 32 * (4 * (x * y)),
            4096 * (x * y) <= i64::MAX,
            0 <= x * y,
            forall|k: int| 0 <= k < 32 ==> #[trigger] right@[k] + left@[k] == 2 * cyclic_conv(lhs@, rhs@, k),
            forall|k: int| 0 <= k < 32 ==> #[trigger] right@[k] - left@[k] == 2 * cyclic_conv(lhs@, rhs@, k + 32),
            forall|k: int| 0 <= k < i ==> #[trigger] output@[k] == cyclic_conv(lhs@, rhs@, k),
            forall|k: int| 32 <= k < 32 + i ==> #[trigger] output@[k] == cyclic_conv(lhs@, rhs@, k),
            forall|k: int| 64 <= k < output@.len() ==> #[trigger] output@[k] == old(output)@[k],
        decreases 32 - i,
    {
        proof {
            lemma_shift_halves((left@[i as int] + right@[i as int]) as i64);
            assert(right@[i as int] + left@[i as int] == 2 * cyclic_conv(lhs@, rhs@, i as int));
            assert(right@[i as int] - left@[i as int] == 2 * cyclic_conv(lhs@, rhs@, i + 32));
        }
        let low = (left[i] + right[i]) >> 1;
        output[i] = low;
        output[i + 32] = right[i] - low;
        i += 1;
    }
}

/// Multiplies `lhs` by the circulant matrix whose first row is `rhs`, for an
/// order that is a power of two: the convolution of `lhs` with the matrix's
/// first column.
pub fn apply_circulant_karat_generic_i64<const N: usize>(lhs: [i64; N], rhs: [i64; N]) -> (output: [i64; N])
    requires
        is_power_of_two(N as nat),
        N * max_abs(lhs@) <= i64::MAX,
        N * max_abs(rhs@) <= i64::MAX,
        4 * budget(N as int, max_abs(lhs@), max_abs(rhs@)) <= i64::MAX,
    ensures
        forall|k: int| 0 <= k < N ==> #[trigger] output@[k] == cyclic_conv(lhs@, circulant_column(rhs@), k),
{
    let column = row_to_col(rhs);
    let mut output = [0i64; N];
    proof {
        let x = max_abs(lhs@);
        let y = max_abs(rhs@);
        let z = max_abs(column@);
        lemma_max_abs_all(lhs@);
        lemma_max_abs_all(rhs@);
        lemma_max_abs_at_most(column@, y);
        lemma_bounds_multiply(x, z, x, y);
        let n = N as int;
        assert(n * z <= n * y && (n * n) * (x * z) <= (n * n) * (x * y)) by (nonlinear_arith)
            requires
                n >= 0,
                0 <= z <= y,
                x * z <= x * y,
        ;
    }
    conv_karat_generic(lhs.as_slice(), column.as_slice(), &mut output);
    output
}

/// Splits a value below `2^62` into its low and its high 31 bits. Their sum
/// is congruent to the value modulo `2^31 - 1`, and at most twice that prime.
pub fn red_u62_m31(input: i64) -> (parts: (u32, u32))
    requires
        0 <= input < 0x4000_0000_0000_0000,
    ensures
        parts.0 <= P,
        parts.1 <= P,
        parts.0 + parts.1 * 0x8000_0000 == input,
        (parts.0 + parts.1) % (P as int) == (input as int) % (P as int),
{
    let low = input & P;
    let high = input >> 31;
    proof {
        assert(low == input % 0x8000_0000 && high == input / 0x8000_0000 && 0 <= low <= 0x7FFF_FFFF && 0 <= high
            <= 0x7FFF_FFFF) by (bit_vector)
            requires
                low == input & 0x7FFF_FFFF,
                high == input >> 31,
                0 <= input < 0x4000_0000_0000_0000,
        ;
        assert(input == (P as int) * (high as int) + (low + high));
        lemma_mod_multiples_vanish(high as int, (low + high) as int, P as int);
    }
    (low as u32, high as u32)
}

/// Splits a value below `2^93` into its low, middle and high 31 bits. Their
/// sum is congruent to the value modulo `2^31 - 1`.
pub fn red_u93_m31(input: i128) -> (parts: (u32, u32, u32))
    requires
        0 <= input < 0x2000_0000_0000_0000_0000_0000,
    ensures
        parts.0 <= P,
        parts.1 <= P,
        parts.2 <= P,
        parts.0 + parts.1 * 0x8000_0000 + parts.2 * 0x4000_0000_0000_0000 == input,
        (parts.0 + parts.1 + parts.2) % (P as int) == (input as int) % (P as int),
{
    let mask: i128 = 0x7FFF_FFFF;
    let low = input & mask;
    let mid = (input >> 31) & mask;
    let high = input >> 62;
    proof {
        assert(low + mid * 0x8000_0000 + high * 0x4000_0000_0000_0000 == input && 0 <= low <= 0x7FFF_FFFF && 0
            <= mid <= 0x7FFF_FFFF && 0 <= high <= 0x7FFF_FFFF) by (bit_vector)
            requires
                low == input & 0x7FFF_FFFF,
                mid == (input >> 31) & 0x7FFF_FFFF,
                high == input >> 62,
                0 <= input < 0x2000_0000_0000_0000_0000_0000,
        ;
        let sum = (low + mid + high) as int;
        let multiple = mid as int + (0x8000_0000 + 1) * (high as int);
        assert(input == 0x7FFF_FFFF * mid + mid + 0x7FFF_FFFF * (0x8000_0001 * high) + high + low);
        assert(input == 0x7FFF_FFFF * multiple + sum);
        lemma_mod_multiples_vanish(multiple, sum, P as int);
    }
    (low as u32, mid as u32, high as u32)
}

} // verus!
