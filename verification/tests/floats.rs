use fft_stage::radix2;
use fft_stage::radix4;
use fft_stage::sample::Sample;

#[derive(Clone, Copy, Debug, PartialEq)]
struct C64(f32, f32);

impl Sample for C64 {
    fn add_spec(self, rhs: Self) -> Self {
        self.add(rhs)
    }

    fn sub_spec(self, rhs: Self) -> Self {
        self.sub(rhs)
    }

    fn mul_spec(self, rhs: Self) -> Self {
        self.mul(rhs)
    }

    fn div_i_spec(self) -> Self {
        self.div_i()
    }

    fn add(self, rhs: Self) -> Self {
        C64(self.0 + rhs.0, self.1 + rhs.1)
    }

    fn sub(self, rhs: Self) -> Self {
        C64(self.0 - rhs.0, self.1 - rhs.1)
    }

    fn mul(self, rhs: Self) -> Self {
        C64(self.0 * rhs.0 - self.1 * rhs.1, self.1 * rhs.0 + self.0 * rhs.1)
    }

    fn div_i(self) -> Self {
        C64(self.1, -self.0)
    }
}

fn root(k: usize, n: usize) -> C64 {
    let angle = -2.0 * std::f64::consts::PI * (k as f64) / (n as f64);
    C64(angle.cos() as f32, angle.sin() as f32)
}

fn naive_dft(x: &[C64]) -> Vec<C64> {
    let n = x.len();
    (0..n)
        .map(|k| {
            let mut sum = C64(0.0, 0.0);
            for (m, v) in x.iter().enumerate() {
                sum = sum.add(v.mul(root((k * m) % n, n)));
            }
            sum
        })
        .collect()
}

fn close(a: &[C64], b: &[C64]) -> bool {
    a.len() == b.len()
        && a.iter().zip(b.iter()).all(|(u, v)| {
            let scale = 1.0 + v.0.abs().max(v.1.abs());
            (u.0 - v.0).abs() <= 1e-5 * scale && (u.1 - v.1).abs() <= 1e-5 * scale
        })
}

fn signal(n: usize) -> Vec<C64> {
    (0..n).map(|k| C64(0.5 + k as f32, 2.0 - 0.25 * (k * k) as f32)).collect()
}

#[test]
fn float_init_combine_two_points() {
    let mut buf = [C64(1.0, 0.0), C64(2.0, 0.0)];
    radix4::fft_phase_init_2(2, &mut buf);
    assert_eq!(buf, [C64(3.0, 0.0), C64(-1.0, 0.0)]);
}

#[test]
fn float_four_point_impulse_gives_constant() {
    let twiddle = [C64(1.0, 0.0), C64(0.0, -1.0)];
    let src = [C64(1.0, 0.0), C64(0.0, 0.0), C64(0.0, 0.0), C64(0.0, 0.0)];
    let mut mid = [C64(0.0, 0.0); 4];
    let mut out = [C64(0.0, 0.0); 4];
    radix2::fft_phase(4, &twiddle, 0, &src, &mut mid);
    radix2::fft_phase(4, &twiddle, 1, &mid, &mut out);
    assert_eq!(out, [C64(1.0, 0.0); 4]);
}

#[test]
fn float_two_radix2_stages_give_four_point_dft() {
    let twiddle = [root(0, 4), root(1, 4)];
    let src = signal(4);
    let mut mid = vec![C64(0.0, 0.0); 4];
    let mut out = vec![C64(0.0, 0.0); 4];
    radix2::fft_phase(4, &twiddle, 0, &src, &mut mid);
    radix2::fft_phase(4, &twiddle, 1, &mid, &mut out);
    assert!(close(&out, &naive_dft(&src)));
}

#[test]
fn float_one_radix2_stage_gives_two_point_dft() {
    let twiddle = [root(0, 2)];
    let src = signal(2);
    let mut out = vec![C64(0.0, 0.0); 2];
    radix2::fft_phase(2, &twiddle, 0, &src, &mut out);
    assert!(close(&out, &naive_dft(&src)));
}

#[test]
fn float_radix4_stage_gives_four_point_dft() {
    let twiddle = [root(0, 4)];
    let src = signal(4);
    let mut out = vec![C64(0.0, 0.0); 4];
    radix4::fft_phase(4, &twiddle, 0, &src, &mut out);
    assert!(close(&out, &naive_dft(&src)));
}

#[test]
fn float_masked_addressing_is_bit_identical() {
    let n = 64;
    let twiddle: Vec<C64> = (0..n / 2).map(|k| root(k, n)).collect();
    let src = signal(n);
    for idx in 0..6 {
        let mut by_blocks = vec![C64(0.0, 0.0); n];
        let mut by_mask = vec![C64(0.0, 0.0); n];
        radix2::fft_phase(n, &twiddle, idx, &src, &mut by_blocks);
        radix2::fft_phase_masked(n, &twiddle, idx, &src, &mut by_mask);
        assert_eq!(by_blocks, by_mask);
    }
}

#[test]
fn float_radix4_matches_two_radix2_stages() {
    let n = 16;
    let tw2: Vec<C64> = (0..n / 2).map(|k| root(k, n)).collect();
    let src = signal(n);
    for idx in 0..3u32 {
        let stride = (n / 4) >> idx;
        let mut tw4 = vec![C64(0.0, 0.0); n];
        for i in (0..n / 4).step_by(stride) {
            tw4[i] = tw2[i];
            tw4[2 * i] = tw2[2 * i];
            tw4[3 * i] = tw2[2 * i].mul(tw2[i]);
        }
        let mut by_four = vec![C64(0.0, 0.0); n];
        radix4::fft_phase(n, &tw4, idx, &src, &mut by_four);
        let mut mid = vec![C64(0.0, 0.0); n];
        let mut by_two = vec![C64(0.0, 0.0); n];
        radix2::fft_phase(n, &tw2, idx, &src, &mut mid);
        radix2::fft_phase(n, &tw2, idx + 1, &mid, &mut by_two);
        assert!(close(&by_four, &by_two));
    }
}

#[test]
fn float_radix2_stage_is_linear_within_rounding() {
    let n = 32;
    let twiddle: Vec<C64> = (0..n / 2).map(|k| root(k, n)).collect();
    let x = signal(n);
    let y: Vec<C64> = (0..n).map(|k| C64(1.0 - k as f32, 0.125 * k as f32)).collect();
    let (a, b) = (C64(1.5, -0.5), C64(-2.0, 0.25));
    let sum: Vec<C64> = x.iter().zip(y.iter()).map(|(u, v)| a.mul(*u).add(b.mul(*v))).collect();
    for idx in 0..5 {
        let mut of_sum = vec![C64(0.0, 0.0); n];
        let mut of_x = vec![C64(0.0, 0.0); n];
        let mut of_y = vec![C64(0.0, 0.0); n];
        radix2::fft_phase(n, &twiddle, idx, &sum, &mut of_sum);
        radix2::fft_phase(n, &twiddle, idx, &x, &mut of_x);
        radix2::fft_phase(n, &twiddle, idx, &y, &mut of_y);
        let want: Vec<C64> =
            of_x.iter().zip(of_y.iter()).map(|(u, v)| a.mul(*u).add(b.mul(*v))).collect();
        assert!(close(&of_sum, &want));
    }
}

fn wide_dft(x: &[C64]) -> Vec<(f64, f64)> {
    let n = x.len();
    (0..n)
        .map(|k| {
            let (mut re, mut im) = (0.0f64, 0.0f64);
            for (m, v) in x.iter().enumerate() {
                let angle = -2.0 * std::f64::consts::PI * (((k * m) % n) as f64) / (n as f64);
                let (c, s) = (angle.cos(), angle.sin());
                re += v.0 as f64 * c - v.1 as f64 * s;
                im += v.1 as f64 * c + v.0 as f64 * s;
            }
            (re, im)
        })
        .collect()
}

#[test]
fn float_radix2_stages_in_order_give_the_dft() {
    for bits in 1..11u32 {
        let n = 1usize << bits;
        let twiddle: Vec<C64> = (0..n / 2).map(|k| root(k, n)).collect();
        let src: Vec<C64> = (0..n)
            .map(|k| C64(((k * 37 + 11) % 64) as f32 / 32.0 - 1.0, ((k * 53 + 5) % 64) as f32 / 32.0 - 1.0))
            .collect();
        let mut front = src.clone();
        let mut back = vec![C64(0.0, 0.0); n];
        for idx in 0..bits {
            radix2::fft_phase(n, &twiddle, idx, &front, &mut back);
            std::mem::swap(&mut front, &mut back);
        }
        let want = wide_dft(&src);
        let norm = want.iter().map(|v| v.0 * v.0 + v.1 * v.1).sum::<f64>().sqrt();
        let error = front
            .iter()
            .zip(want.iter())
            .map(|(u, v)| (u.0 as f64 - v.0).powi(2) + (u.1 as f64 - v.1).powi(2))
            .sum::<f64>()
            .sqrt();
        assert!(error < 1e-5 * norm, "n = {n}: error {error} against norm {norm}");
    }
}
