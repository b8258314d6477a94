use fri_prover::karatsuba_convolution::{
    add_mut, add_vec, apply_circulant_12_karat, apply_circulant_16_karat, apply_circulant_8_karat,
    apply_circulant_karat_generic_i64, conv12, conv16, conv3, conv32, conv4, conv4_slice, conv6,
    conv64, conv8, conv_karat_generic, dot, dot_i128, dot_i64, rearrange, red_u62_m31,
    red_u93_m31, row_to_col, sign_conv3, sign_conv6, signed_conv16, signed_conv32, signed_conv4,
    signed_conv4_mut, signed_conv4_slice, signed_conv8, signed_conv_karat_generic, split_add_sub,
    split_eom, sub_mut, sub_vec, MATRIX_CIRC_MDS_12_SML, MATRIX_CIRC_MDS_16_SML,
    MATRIX_CIRC_MDS_8_SML, P,
};

/// The coefficients of `lhs(x) * rhs(x)` modulo `x^n - 1`.
fn naive_conv(lhs: &[i64], rhs: &[i64]) -> Vec<i64> {
    let n = lhs.len();
    let mut out = vec![0i64; n];
    for i in 0..n {
        for j in 0..n {
            out[(i + j) % n] += lhs[i] * rhs[j];
        }
    }
    out
}

/// The coefficients of `lhs(x) * rhs(x)` modulo `x^n + 1`.
fn naive_signed_conv(lhs: &[i64], rhs: &[i64]) -> Vec<i64> {
    let n = lhs.len();
    let mut out = vec![0i64; n];
    for i in 0..n {
        for j in 0..n {
            if i + j < n {
                out[i + j] += lhs[i] * rhs[j];
            } else {
                out[i + j - n] -= lhs[i] * rhs[j];
            }
        }
    }
    out
}

/// The product of the circulant matrix with first row `row` and `input`.
fn circulant_times(row: &[i64], input: &[i64]) -> Vec<i64> {
    let n = row.len();
    (0..n)
        .map(|k| (0..n).map(|j| row[(j + n - k) % n] * input[j]).sum())
        .collect()
}

fn sample<const N: usize>(seed: i64, span: i64) -> [i64; N] {
    let mut out = [0i64; N];
    let mut state = seed;
    for slot in out.iter_mut() {
        state = (state * 1_103_515_245 + 12_345) % 2_147_483_648;
        *slot = state % (2 * span + 1) - span;
    }
    out
}

#[test]
fn add_mut_adds_into_the_front() {
    let mut lhs = [1i64, -2, 3, 40];
    add_mut(&mut lhs, &[10, 20, -30]);
    assert_eq!(lhs, [11, 18, -27, 40]);
    let mut same = [5i64, 6];
    add_mut(&mut same, &[]);
    assert_eq!(same, [5, 6]);
}

#[test]
fn sub_mut_subtracts_from_the_front() {
    let mut lhs = [1i64, -2, 3, 40];
    sub_mut(&mut lhs, &[10, 20, -30]);
    assert_eq!(lhs, [-9, -22, 33, 40]);
}

#[test]
fn add_vec_and_sub_vec_take_the_first_entries() {
    let sum: [i64; 3] = add_vec(&[1, 2, 3, 4], &[10, 20, 30]);
    assert_eq!(sum, [11, 22, 33]);
    let difference: [i64; 2] = sub_vec(&[1, 2, 3, 4], &[10, 20, 30]);
    assert_eq!(difference, [-9, -18]);
    let extreme: [i64; 1] = add_vec(&[i64::MAX], &[0]);
    assert_eq!(extreme, [i64::MAX]);
}

#[test]
fn dot_products() {
    assert_eq!(dot(&[1, 2, 3], &[4, -5, 6]), 12);
    assert_eq!(dot(&[7], &[6, 100]), 42);
    assert_eq!(dot_i64(&[1, 2, 3], &[4, -5, 6]), 12);
    assert_eq!(dot_i64(&[-3, 3], &[3, 3, 9]), 0);
    assert_eq!(dot_i128(&[1, 2, 3], &[4, -5, 6]), 12);
    assert_eq!(
        dot_i128(&[i64::MAX, i64::MAX], &[i64::MAX, 2]),
        (i64::MAX as i128) * (i64::MAX as i128) + 2 * (i64::MAX as i128)
    );
    assert_eq!(dot_i128(&[i64::MIN], &[i64::MIN]), 1i128 << 126);
}

#[test]
fn split_add_sub_gives_sums_and_differences_of_halves() {
    let (sums, differences): ([i64; 3], [i64; 3]) = split_add_sub([1, 2, 3, 10, 20, 30]);
    assert_eq!(sums, [11, 22, 33]);
    assert_eq!(differences, [-9, -18, -27]);
}

#[test]
fn row_to_col_reverses_all_but_the_first() {
    assert_eq!(row_to_col([1i64, 2, 3, 4, 5]), [1, 5, 4, 3, 2]);
    assert_eq!(row_to_col([9i64]), [9]);
    assert_eq!(row_to_col(MATRIX_CIRC_MDS_8_SML), [4, 1, 1, 5, 10, 9, 2, 1]);
}

#[test]
fn split_eom_gives_even_odd_and_mixed() {
    let (even, odd, mix) = split_eom(&[1, 20, 3, 40, 5, 60]);
    assert_eq!(even, vec![1, 3, 5]);
    assert_eq!(odd, vec![20, 40, 60]);
    assert_eq!(mix, vec![21, 43, 65]);
    let (even, odd, mix) = split_eom(&[1, 2, 3]);
    assert_eq!((even, odd, mix), (vec![1], vec![2], vec![3]));
    let (even, odd, mix) = split_eom(&[]);
    assert!(even.is_empty() && odd.is_empty() && mix.is_empty());
}

#[test]
fn rearrange_interleaves_the_halves() {
    let mut v = [0i64, 1, 2, 3, 10, 11, 12, 13];
    rearrange(&mut v);
    assert_eq!(v, [0, 10, 1, 11, 2, 12, 3, 13]);
    let mut odd = [1i64, 2, 3, 4, 5];
    rearrange(&mut odd);
    assert_eq!(odd, [1, 3, 2, 4, 5]);
    let mut one = [7i64];
    rearrange(&mut one);
    assert_eq!(one, [7]);
}

#[test]
fn length_three_convolutions() {
    assert_eq!(conv3([1, 2, 3], [4, 5, 6]), [31, 31, 28]);
    assert_eq!(sign_conv3(&[1, 2, 3], &[4, 5, 6]), [-23, -5, 28]);
    for seed in 1..20 {
        let lhs: [i64; 3] = sample(seed, 1 << 20);
        let rhs: [i64; 3] = sample(seed + 100, 1 << 20);
        assert_eq!(conv3(lhs, rhs).to_vec(), naive_conv(&lhs, &rhs));
        assert_eq!(sign_conv3(&lhs, &rhs).to_vec(), naive_signed_conv(&lhs, &rhs));
    }
}

#[test]
fn length_four_convolutions() {
    let mut out = [0i64; 5];
    conv4_slice(&[1, 2, 3, 4], &[5, 6, 7, 8], &mut out[..]);
    assert_eq!(out, [66, 68, 66, 60, 0]);
    let mut signed = [7i64; 5];
    signed_conv4_slice(&[1, 2, 3, 4], &[5, 6, 7, 8], &mut signed[..]);
    assert_eq!(signed, [-56, -36, 2, 60, 7]);
    for seed in 1..20 {
        let lhs: [i64; 4] = sample(seed, 1 << 25);
        let rhs: [i64; 4] = sample(seed + 100, 1 << 25);
        let mut out = [0i64; 4];
        conv4_slice(&lhs, &rhs, &mut out);
        assert_eq!(out.to_vec(), naive_conv(&lhs, &rhs));
        let mut out = [0i64; 4];
        conv4(lhs, rhs, &mut out);
        assert_eq!(out.to_vec(), naive_conv(&lhs, &rhs));
        let mut out = [0i64; 4];
        signed_conv4_slice(&lhs, &rhs, &mut out);
        assert_eq!(out.to_vec(), naive_signed_conv(&lhs, &rhs));
        let mut out = [0i64; 4];
        signed_conv4_mut(&lhs, &rhs, &mut out);
        assert_eq!(out.to_vec(), naive_signed_conv(&lhs, &rhs));
        assert_eq!(signed_conv4(&lhs, &rhs).to_vec(), naive_signed_conv(&lhs, &rhs));
    }
}

#[test]
fn odd_intermediate_sums_do_not_lose_a_unit() {
    // Every product below is odd; the halved sums must still be exact.
    let mut out = [0i64; 4];
    conv4_slice(&[1, 1, 1, 1], &[1, 3, 5, 7], &mut out);
    assert_eq!(out, [16, 16, 16, 16]);
    let mut out = [0i64; 4];
    conv4_slice(&[-1, 3, -5, 7], &[1, -1, 1, -1], &mut out);
    assert_eq!(out.to_vec(), naive_conv(&[-1, 3, -5, 7], &[1, -1, 1, -1]));
    assert_eq!(conv6([1, -1, 1, -1, 1, -3], [1, 1, 1, 1, 1, 1]), [-2, -2, -2, -2, -2, -2]);
}

#[test]
fn length_six_and_twelve_convolutions() {
    assert_eq!(conv6([1, 0, 0, 0, 0, 0], [1, 2, 3, 4, 5, 6]), [1, 2, 3, 4, 5, 6]);
    assert_eq!(conv6([0, 1, 0, 0, 0, 0], [1, 2, 3, 4, 5, 6]), [6, 1, 2, 3, 4, 5]);
    assert_eq!(sign_conv6(&[0, 1, 0, 0, 0, 0], &[1, 2, 3, 4, 5, 6]), [-6, 1, 2, 3, 4, 5]);
    for seed in 1..20 {
        let lhs: [i64; 6] = sample(seed, 1 << 25);
        let rhs: [i64; 6] = sample(seed + 100, 1 << 25);
        assert_eq!(conv6(lhs, rhs).to_vec(), naive_conv(&lhs, &rhs));
        assert_eq!(sign_conv6(&lhs, &rhs).to_vec(), naive_signed_conv(&lhs, &rhs));
        let lhs: [i64; 12] = sample(seed, 1 << 25);
        let rhs: [i64; 12] = sample(seed + 100, 1 << 25);
        assert_eq!(conv12(lhs, rhs).to_vec(), naive_conv(&lhs, &rhs));
    }
}

#[test]
fn length_eight_and_sixteen_convolutions() {
    let mut out = [9i64; 9];
    conv8([0, 0, 1, 0, 0, 0, 0, 0], [1, 2, 3, 4, 5, 6, 7, 8], &mut out);
    assert_eq!(out, [7, 8, 1, 2, 3, 4, 5, 6, 9]);
    assert_eq!(
        signed_conv8(&[0, 0, 1, 0, 0, 0, 0, 0], &[1, 2, 3, 4, 5, 6, 7, 8]),
        [-7, -8, 1, 2, 3, 4, 5, 6]
    );
    for seed in 1..20 {
        let lhs: [i64; 8] = sample(seed, 1 << 25);
        let rhs: [i64; 8] = sample(seed + 100, 1 << 25);
        let mut out = [0i64; 8];
        conv8(lhs, rhs, &mut out);
        assert_eq!(out.to_vec(), naive_conv(&lhs, &rhs));
        assert_eq!(signed_conv8(&lhs, &rhs).to_vec(), naive_signed_conv(&lhs, &rhs));
        let lhs: [i64; 16] = sample(seed, 1 << 25);
        let rhs: [i64; 16] = sample(seed + 100, 1 << 25);
        let mut out = [0i64; 16];
        conv16(lhs, rhs, &mut out);
        assert_eq!(out.to_vec(), naive_conv(&lhs, &rhs));
        assert_eq!(signed_conv16(&lhs, &rhs).to_vec(), naive_signed_conv(&lhs, &rhs));
    }
}

#[test]
fn circulant_matrices_times_unit_vectors_give_their_columns() {
    let mut e0 = [0i64; 8];
    e0[0] = 1;
    assert_eq!(apply_circulant_8_karat(e0), [4, 1, 1, 5, 10, 9, 2, 1]);
    let mut e1 = [0i64; 8];
    e1[1] = 1;
    assert_eq!(apply_circulant_8_karat(e1), [1, 4, 1, 1, 5, 10, 9, 2]);
    let mut e0 = [0i64; 12];
    e0[0] = 1;
    assert_eq!(apply_circulant_12_karat(e0), row_to_col(MATRIX_CIRC_MDS_12_SML));
    let mut e0 = [0i64; 16];
    e0[0] = 1;
    assert_eq!(apply_circulant_16_karat(e0), row_to_col(MATRIX_CIRC_MDS_16_SML));
}

#[test]
fn circulant_matrices_times_vectors() {
    for seed in 1..20 {
        let input: [i64; 8] = sample(seed, 1 << 30).map(|v| v.abs());
        assert_eq!(apply_circulant_8_karat(input).to_vec(), circulant_times(&MATRIX_CIRC_MDS_8_SML, &input));
        let input: [i64; 12] = sample(seed, 1 << 30).map(|v| v.abs());
        assert_eq!(apply_circulant_12_karat(input).to_vec(), circulant_times(&MATRIX_CIRC_MDS_12_SML, &input));
        let input: [i64; 16] = sample(seed, 1 << 30).map(|v| v.abs());
        assert_eq!(apply_circulant_16_karat(input).to_vec(), circulant_times(&MATRIX_CIRC_MDS_16_SML, &input));
    }
    let top = [u32::MAX as i64; 16];
    let sum: i64 = MATRIX_CIRC_MDS_16_SML.iter().sum();
    assert_eq!(apply_circulant_16_karat(top), [sum * u32::MAX as i64; 16]);
}

#[test]
fn length_thirty_two_and_sixty_four_convolutions() {
    for seed in 1..10 {
        let lhs: [i64; 32] = sample(seed, 1 << 24);
        let rhs: [i64; 32] = sample(seed + 100, 1 << 24);
        let mut out = [0i64; 32];
        conv32(lhs, rhs, &mut out);
        assert_eq!(out.to_vec(), naive_conv(&lhs, &rhs));
        assert_eq!(signed_conv32(&lhs, &rhs).to_vec(), naive_signed_conv(&lhs, &rhs));
        let lhs: [i64; 64] = sample(seed, 1 << 24);
        let rhs: [i64; 64] = sample(seed + 100, 1 << 24);
        let mut out = [5i64; 65];
        conv64(lhs, rhs, &mut out);
        assert_eq!(out[..64].to_vec(), naive_conv(&lhs, &rhs));
        assert_eq!(out[64], 5);
    }
    let mut shift = [0i64; 32];
    shift[1] = 1;
    let mut ramp = [0i64; 32];
    for (i, slot) in ramp.iter_mut().enumerate() {
        *slot = i as i64 + 1;
    }
    let rotated = signed_conv32(&shift, &ramp);
    assert_eq!(rotated[0], -32);
    assert_eq!(rotated[1], 1);
    assert_eq!(rotated[31], 31);
}

#[test]
fn generic_convolutions_of_every_small_power_of_two() {
    for log in 0..8 {
        let n = 1usize << log;
        for seed in 1..6 {
            let lhs: Vec<i64> = sample::<128>(seed, 1 << 22)[..n].to_vec();
            let rhs: Vec<i64> = sample::<128>(seed + 50, 1 << 22)[..n].to_vec();
            let mut out = vec![0i64; n];
            conv_karat_generic(&lhs, &rhs, &mut out);
            assert_eq!(out, naive_conv(&lhs, &rhs));
            let mut out = vec![0i64; n];
            signed_conv_karat_generic(&lhs, &rhs, &mut out);
            assert_eq!(out, naive_signed_conv(&lhs, &rhs));
        }
    }
}

#[test]
fn generic_convolutions_on_given_values() {
    let mut out = [0i64; 1];
    conv_karat_generic(&[3], &[-7], &mut out);
    assert_eq!(out, [-21]);
    let mut out = [0i64; 2];
    conv_karat_generic(&[1, 2], &[3, 4], &mut out);
    assert_eq!(out, [11, 10]);
    let mut out = [0i64; 2];
    signed_conv_karat_generic(&[1, 2], &[3, 4], &mut out);
    assert_eq!(out, [-5, 10]);
    let mut out = [0i64; 8];
    signed_conv_karat_generic(&[0, 0, 0, 0, 0, 0, 0, 1], &[1, 2, 3, 4, 5, 6, 7, 8], &mut out);
    assert_eq!(out, [-2, -3, -4, -5, -6, -7, -8, 1]);
    let mut out = [0i64; 8];
    conv_karat_generic(&[0, 0, 0, 0, 0, 0, 0, 1], &[1, 2, 3, 4, 5, 6, 7, 8], &mut out);
    assert_eq!(out, [2, 3, 4, 5, 6, 7, 8, 1]);
}

#[test]
fn generic_circulant_matrix_times_vector() {
    assert_eq!(
        apply_circulant_karat_generic_i64([1, 0, 0, 0], [10, 20, 30, 40]),
        [10, 40, 30, 20]
    );
    assert_eq!(
        apply_circulant_karat_generic_i64([1, 2, 3, 4], [10, 20, 30, 40]),
        [300, 240, 220, 240]
    );
    for seed in 1..10 {
        let input: [i64; 16] = sample(seed, 1 << 24);
        let row: [i64; 16] = sample(seed + 7, 1 << 24);
        assert_eq!(apply_circulant_karat_generic_i64(input, row).to_vec(), circulant_times(&row, &input));
        let input: [i64; 8] = sample(seed, 1 << 30).map(|v| v.abs());
        assert_eq!(
            apply_circulant_karat_generic_i64(input, MATRIX_CIRC_MDS_8_SML),
            apply_circulant_8_karat(input)
        );
    }
}

#[test]
fn mersenne_reductions() {
    assert_eq!(P, 2_147_483_647);
    assert_eq!(red_u62_m31(0), (0, 0));
    assert_eq!(red_u62_m31(P), (P as u32, 0));
    assert_eq!(red_u62_m31(P + 1), (0, 1));
    assert_eq!(red_u62_m31((1 << 62) - 1), (P as u32, P as u32));
    assert_eq!(red_u62_m31(5 * (1 << 31) + 9), (9, 5));
    assert_eq!(red_u93_m31(0), (0, 0, 0));
    assert_eq!(red_u93_m31((1i128 << 93) - 1), (P as u32, P as u32, P as u32));
    assert_eq!(red_u93_m31(7 * (1i128 << 62) + 5 * (1i128 << 31) + 9), (9, 5, 7));
    for seed in 1..50i64 {
        let value = (seed * 0x1234_5678_9ABC) % (1 << 62);
        let (low, high) = red_u62_m31(value);
        assert_eq!((low as i64 + high as i64) % P, value % P);
        let wide = (value as i128) * (seed as i128 + 1_000_000);
        let (low, mid, high) = red_u93_m31(wide);
        assert_eq!((low as i128 + mid as i128 + high as i128) % (P as i128), wide % (P as i128));
    }
}
