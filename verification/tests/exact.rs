use fft_stage::gauss::Gauss;
use fft_stage::index::{is_power_of_two, stage_is_valid};
use fft_stage::radix2;
use fft_stage::radix4;
use fft_stage::sample::Sample;

fn g(re: i64, im: i64) -> Gauss {
    Gauss::new(re, im)
}

fn ramp(n: usize, seed: i64) -> Vec<Gauss> {
    (0..n).map(|k| g(seed + 3 * k as i64, 7 - seed * k as i64)).collect()
}

#[test]
fn gauss_arithmetic_is_complex_arithmetic() {
    let a = g(2, 3);
    let b = g(5, -7);
    assert_eq!(a.add(b), g(7, -4));
    assert_eq!(a.sub(b), g(-3, 10));
    // (2 + 3i)(5 - 7i) = 10 - 14i + 15i + 21
    assert_eq!(a.mul(b), g(31, 1));
    assert_eq!(a.div_i(), g(3, -2));
    assert_eq!(a.div_i(), a.mul(g(0, -1)));
}

#[test]
fn gauss_arithmetic_wraps() {
    assert_eq!(g(i64::MAX, 0).add(g(1, 0)), g(i64::MIN, 0));
    assert_eq!(g(i64::MIN, 0).sub(g(1, 0)), g(i64::MAX, 0));
    assert_eq!(g(i64::MIN, 0).div_i(), g(0, i64::MIN));
}

#[test]
fn init_combine_two_points() {
    let mut buf = [g(1, 0), g(2, 0)];
    radix4::fft_phase_init_2(2, &mut buf);
    assert_eq!(buf, [g(3, 0), g(-1, 0)]);
}

#[test]
fn init_combine_pairs_halves() {
    let mut buf = [g(1, 1), g(2, -2), g(10, 0), g(0, 20)];
    radix4::fft_phase_init_2(4, &mut buf);
    assert_eq!(buf, [g(11, 1), g(2, 18), g(-9, 1), g(2, -22)]);
}

#[test]
fn four_point_impulse_gives_constant() {
    let twiddle = [g(1, 0), g(0, -1)];
    let src = [g(1, 0), g(0, 0), g(0, 0), g(0, 0)];
    let mut mid = [g(9, 9); 4];
    let mut out = [g(9, 9); 4];
    radix2::fft_phase(4, &twiddle, 0, &src, &mut mid);
    radix2::fft_phase(4, &twiddle, 1, &mid, &mut out);
    assert_eq!(out, [g(1, 0), g(1, 0), g(1, 0), g(1, 0)]);
}

#[test]
fn four_point_impulse_gives_constant_masked() {
    let twiddle = [g(1, 0), g(0, -1)];
    let src = [g(1, 0), g(0, 0), g(0, 0), g(0, 0)];
    let mut mid = [g(9, 9); 4];
    let mut out = [g(9, 9); 4];
    radix2::fft_phase_masked(4, &twiddle, 0, &src, &mut mid);
    radix2::fft_phase_masked(4, &twiddle, 1, &mid, &mut out);
    assert_eq!(out, [g(1, 0), g(1, 0), g(1, 0), g(1, 0)]);
}

#[test]
fn radix2_first_stage_exact_values() {
    // stride 2: one block, twiddle[0] turns the upper input
    let twiddle = [g(0, 1), g(5, 5)];
    let src = [g(1, 0), g(2, 0), g(3, 0), g(4, 0)];
    let mut dst = [g(0, 0); 4];
    radix2::fft_phase(4, &twiddle, 0, &src, &mut dst);
    assert_eq!(dst, [g(1, 3), g(2, 4), g(1, -3), g(2, -4)]);
}

#[test]
fn radix2_last_stage_exact_values() {
    // stride 1: two blocks, twiddle[0] and twiddle[1]
    let twiddle = [g(1, 0), g(0, -1)];
    let src = [g(1, 0), g(2, 0), g(3, 0), g(4, 0)];
    let mut dst = [g(0, 0); 4];
    radix2::fft_phase(4, &twiddle, 1, &src, &mut dst);
    assert_eq!(dst, [g(3, 0), g(3, -4), g(-1, 0), g(3, 4)]);
}

#[test]
fn radix4_four_points_exact_values() {
    let twiddle = [g(1, 0)];
    let src = [g(1, 0), g(2, 0), g(3, 0), g(4, 0)];
    let mut dst = [g(0, 0); 4];
    radix4::fft_phase(4, &twiddle, 0, &src, &mut dst);
    assert_eq!(dst, [g(10, 0), g(-2, 2), g(-2, 0), g(-2, -2)]);
}

#[test]
fn radix4_uses_three_twiddles_per_block() {
    // n = 8, stride 1: blocks start at 0 and 1; the second reads twiddle 1, 2, 3
    let twiddle = [g(1, 0), g(2, 0), g(3, 0), g(5, 0)];
    let src = [g(1, 0), g(1, 0), g(1, 0), g(1, 0), g(1, 0), g(10, 0), g(100, 0), g(1000, 0)];
    let mut dst = [g(0, 0); 8];
    radix4::fft_phase(8, &twiddle, 1, &src, &mut dst);
    // second block: a = 1, b = 20, c = 300, d = 5000
    assert_eq!(dst[1], g(5321, 0));
    assert_eq!(dst[3], g(-299, 4980));
    assert_eq!(dst[5], g(-4719, 0));
    assert_eq!(dst[7], g(-299, -4980));
    assert_eq!(dst[0], g(4, 0));
    assert_eq!(dst[2], g(0, 0));
}

#[test]
fn masked_addressing_matches_blocks() {
    for bits in 1..7u32 {
        let n = 1usize << bits;
        let twiddle = ramp(n / 2, 11);
        let src = ramp(n, -4);
        for idx in 0..bits {
            let mut by_blocks = vec![g(0, 0); n];
            let mut by_mask = vec![g(1, 1); n];
            radix2::fft_phase(n, &twiddle, idx, &src, &mut by_blocks);
            radix2::fft_phase_masked(n, &twiddle, idx, &src, &mut by_mask);
            assert_eq!(by_blocks, by_mask);
        }
    }
}

fn scaled_sum(a: Gauss, x: &[Gauss], b: Gauss, y: &[Gauss]) -> Vec<Gauss> {
    x.iter().zip(y.iter()).map(|(u, v)| a.mul(*u).add(b.mul(*v))).collect()
}

#[test]
fn radix2_stage_is_linear() {
    let n = 16;
    let twiddle = ramp(n / 2, 2);
    let x = ramp(n, 1);
    let y = ramp(n, -6);
    let (a, b) = (g(3, -2), g(-1, 4));
    for idx in 0..4 {
        let mut of_sum = vec![g(0, 0); n];
        let mut of_x = vec![g(0, 0); n];
        let mut of_y = vec![g(0, 0); n];
        radix2::fft_phase(n, &twiddle, idx, &scaled_sum(a, &x, b, &y), &mut of_sum);
        radix2::fft_phase(n, &twiddle, idx, &x, &mut of_x);
        radix2::fft_phase(n, &twiddle, idx, &y, &mut of_y);
        assert_eq!(of_sum, scaled_sum(a, &of_x, b, &of_y));
    }
}

#[test]
fn radix4_stage_is_linear() {
    let n = 16;
    let twiddle = ramp(n, 2);
    let x = ramp(n, 1);
    let y = ramp(n, -6);
    let (a, b) = (g(3, -2), g(-1, 4));
    for idx in 0..3 {
        let mut of_sum = vec![g(0, 0); n];
        let mut of_x = vec![g(0, 0); n];
        let mut of_y = vec![g(0, 0); n];
        radix4::fft_phase(n, &twiddle, idx, &scaled_sum(a, &x, b, &y), &mut of_sum);
        radix4::fft_phase(n, &twiddle, idx, &x, &mut of_x);
        radix4::fft_phase(n, &twiddle, idx, &y, &mut of_y);
        assert_eq!(of_sum, scaled_sum(a, &of_x, b, &of_y));
    }
}

#[test]
fn init_combine_is_linear() {
    let n = 8;
    let x = ramp(n, 1);
    let y = ramp(n, -6);
    let (a, b) = (g(3, -2), g(-1, 4));
    let mut of_sum = scaled_sum(a, &x, b, &y);
    let mut of_x = x.clone();
    let mut of_y = y.clone();
    radix4::fft_phase_init_2(n, &mut of_sum);
    radix4::fft_phase_init_2(n, &mut of_x);
    radix4::fft_phase_init_2(n, &mut of_y);
    assert_eq!(of_sum, scaled_sum(a, &of_x, b, &of_y));
}

#[test]
fn radix4_matches_two_radix2_stages() {
    // n = 16, radix-4 stride 2: block starts 0 and 2
    let n = 16;
    let quarter = n / 4;
    let mut tw2 = vec![g(1, 0), g(0, 0), g(3, -5), g(0, 0), g(2, 7), g(0, 0), g(0, 0), g(0, 0)];
    for i in [0usize, 2] {
        tw2[i + quarter] = tw2[i].div_i();
    }
    let mut tw4 = vec![g(0, 0); n];
    for i in [0usize, 2] {
        tw4[i] = tw2[i];
        tw4[2 * i] = tw2[2 * i];
        tw4[3 * i] = tw2[2 * i].mul(tw2[i]);
    }
    let src = ramp(n, 5);
    let mut by_four = vec![g(0, 0); n];
    radix4::fft_phase(n, &tw4, 1, &src, &mut by_four);
    let mut mid = vec![g(0, 0); n];
    let mut by_two = vec![g(0, 0); n];
    radix2::fft_phase(n, &tw2, 1, &src, &mut mid);
    radix2::fft_phase(n, &tw2, 2, &mid, &mut by_two);
    assert_eq!(by_four, by_two);
}

#[test]
fn power_of_two_test() {
    assert!(!is_power_of_two(0));
    assert!(is_power_of_two(1));
    assert!(is_power_of_two(2));
    assert!(!is_power_of_two(6));
    assert!(is_power_of_two(1 << 20));
    assert!(!is_power_of_two(usize::MAX));
}

#[test]
fn stage_validity() {
    assert!(stage_is_valid(8, 0));
    assert!(stage_is_valid(8, 3));
    assert!(!stage_is_valid(8, 4));
    assert!(!stage_is_valid(8, 64));
    assert!(!stage_is_valid(8, u32::MAX));
    assert!(!stage_is_valid(12, 0));
    assert!(!stage_is_valid(0, 0));
}

#[test]
fn radix2_input_validation() {
    assert!(radix2::inputs_valid(8, 4, 0, 8, 8));
    assert!(radix2::inputs_valid(8, 4, 2, 8, 8));
    // the first stage reads twiddle 0 only, the last one up to 3
    assert!(radix2::inputs_valid(8, 1, 0, 8, 8));
    assert!(!radix2::inputs_valid(8, 0, 0, 8, 8));
    assert!(!radix2::inputs_valid(8, 3, 2, 8, 8));
    assert!(!radix2::inputs_valid(8, 4, 3, 8, 8));
    assert!(!radix2::inputs_valid(8, 4, 0, 7, 8));
    assert!(!radix2::inputs_valid(8, 4, 0, 8, 9));
    assert!(!radix2::inputs_valid(6, 3, 0, 6, 6));
    assert!(!radix2::inputs_valid(1, 1, 0, 1, 1));
    assert!(!radix2::inputs_valid(0, 0, 0, 0, 0));
    assert!(radix2::inputs_valid(2, 1, 0, 2, 2));
    // three blocks of stride 1
    assert!(radix2::inputs_valid(6, 3, 1, 6, 6));
    assert!(!radix2::inputs_valid(12, 6, 1, 12, 12));
}

#[test]
fn radix2_three_blocks_of_stride_one() {
    let twiddle = [g(1, 0), g(2, 0), g(3, 0)];
    let src = [g(1, 0), g(2, 0), g(3, 0), g(4, 0), g(5, 0), g(6, 0)];
    let mut dst = [g(0, 0); 6];
    radix2::fft_phase(6, &twiddle, 1, &src, &mut dst);
    assert_eq!(dst, [g(3, 0), g(11, 0), g(23, 0), g(-1, 0), g(-5, 0), g(-13, 0)]);
    let mut masked = [g(0, 0); 6];
    radix2::fft_phase_masked(6, &twiddle, 1, &src, &mut masked);
    assert_eq!(masked, dst);
}

#[test]
fn radix4_input_validation() {
    assert!(radix4::inputs_valid(16, 16, 0, 16, 16));
    assert!(radix4::inputs_valid(16, 1, 0, 16, 16));
    // stride 1: the last block starts at 3 and reads twiddle 9
    assert!(radix4::inputs_valid(16, 10, 2, 16, 16));
    assert!(!radix4::inputs_valid(16, 9, 2, 16, 16));
    assert!(!radix4::inputs_valid(16, 16, 3, 16, 16));
    assert!(!radix4::inputs_valid(2, 2, 0, 2, 2));
    assert!(!radix4::inputs_valid(12, 12, 0, 12, 12));
    assert!(!radix4::inputs_valid(16, 16, 0, 16, 15));
    assert!(radix4::inputs_valid(4, 1, 0, 4, 4));
    assert!(radix4::inputs_valid(8, 4, 1, 8, 8));
    assert!(radix4::inputs_valid(12, 7, 1, 12, 12));
    assert!(!radix4::inputs_valid(12, 6, 1, 12, 12));
}

#[test]
fn four_point_transform_is_the_direct_sum() {
    // the powers of the root: 1, -i, -1, i
    let powers = [g(1, 0), g(0, -1), g(-1, 0), g(0, 1)];
    let twiddle = [powers[0], powers[1]];
    let src = [g(3, -1), g(-2, 5), g(7, 7), g(0, -4)];
    let mut mid = [g(0, 0); 4];
    let mut out = [g(0, 0); 4];
    radix2::fft_phase(4, &twiddle, 0, &src, &mut mid);
    radix2::fft_phase(4, &twiddle, 1, &mid, &mut out);
    for k in 0..4 {
        let mut sum = g(0, 0);
        for j in 0..4 {
            sum = sum.add(src[j].mul(powers[(k * j) % 4]));
        }
        assert_eq!(out[k], sum);
    }
    assert_eq!(out[0], g(8, 7));
}

#[test]
fn two_point_transform_is_sum_and_difference() {
    let twiddle = [g(1, 0)];
    let src = [g(3, -1), g(-2, 5)];
    let mut out = [g(0, 0); 2];
    radix2::fft_phase(2, &twiddle, 0, &src, &mut out);
    assert_eq!(out, [g(1, 4), g(5, -6)]);
}

#[test]
fn init_combine_is_first_radix2_stage_with_unit_twiddle() {
    let n = 8;
    let twiddle = [g(1, 0), g(4, 4), g(-3, 2), g(0, 9)];
    let src = ramp(n, 3);
    let mut staged = vec![g(0, 0); n];
    radix2::fft_phase(n, &twiddle, 0, &src, &mut staged);
    let mut combined = src.clone();
    radix4::fft_phase_init_2(n, &mut combined);
    assert_eq!(staged, combined);
}
