//! The weight and activation quantisers.
use bitnet::bitlinear::{absmax_int8, absmean_ternary, dequantised_acts, dequantised_weights};
use bitnet::float::Float;
use bitnet::tensor::Tensor;

/// A 32-bit float that keeps a single NaN.
#[derive(Clone, Copy, Debug, PartialEq, PartialOrd)]
struct F(f32);

/// Wraps a number, with one pattern for NaN.
fn f(x: f32) -> F {
    if x.is_nan() {
        F(f32::NAN)
    } else {
        F(x)
    }
}

impl Float for F {
    fn from_bits(bits: u32) -> F {
        f(f32::from_bits(bits))
    }

    fn to_bits(self) -> u32 {
        self.0.to_bits()
    }

    fn from_count(n: usize) -> F {
        F(n as f32)
    }

    fn from_i8(n: i8) -> F {
        F(n as f32)
    }

    fn to_i8(self) -> i8 {
        self.0 as i8
    }

    fn to_count(self) -> usize {
        self.0 as usize
    }

    fn plus(self, other: F) -> F {
        f(self.0 + other.0)
    }

    fn minus(self, other: F) -> F {
        f(self.0 - other.0)
    }

    fn times(self, other: F) -> F {
        f(self.0 * other.0)
    }

    fn over(self, other: F) -> F {
        f(self.0 / other.0)
    }

    fn pow(self, other: F) -> F {
        f(self.0.powf(other.0))
    }

    fn negate(self) -> F {
        f(-self.0)
    }

    fn abs(self) -> F {
        f(self.0.abs())
    }

    fn round(self) -> F {
        f(self.0.round())
    }

    fn exp(self) -> F {
        f(self.0.exp())
    }

    fn ln(self) -> F {
        f(self.0.ln())
    }

    fn sqrt(self) -> F {
        f(self.0.sqrt())
    }

    fn sin(self) -> F {
        f(self.0.sin())
    }

    fn cos(self) -> F {
        f(self.0.cos())
    }

    fn below(self, other: F) -> bool {
        self.0 < other.0
    }

    fn same(self, other: F) -> bool {
        self.0 == other.0
    }
}

fn tensor(data: Vec<f32>, shape: Vec<usize>) -> Tensor<F> {
    Tensor::from_vec(data.into_iter().map(f).collect(), shape)
}

fn nums(t: &Tensor<F>) -> Vec<f32> {
    t.data.iter().map(|x| x.0).collect()
}

#[test]
fn absmean_ternary_clamps_and_zeroes_correctly() {
    let w = tensor(vec![2.0, -2.0, 0.0, 0.0], vec![1, 4]);
    let (w_q, gamma) = absmean_ternary(&w);
    assert!((gamma.0 - 1.0).abs() < 1e-4, "γ ≈ 1.0, got {}", gamma.0);
    assert_eq!(nums(&w_q), vec![1.0, -1.0, 0.0, 0.0]);
    assert_eq!(w_q.shape, vec![1, 4]);
}

#[test]
fn absmean_ternary_rounds_low_magnitude_to_zero() {
    let w = tensor(vec![0.1, 0.2, 0.3, 0.4], vec![1, 4]);
    let (w_q, gamma) = absmean_ternary(&w);
    assert!((gamma.0 - 0.25).abs() < 1e-4, "γ ≈ 0.25, got {}", gamma.0);
    assert_eq!(nums(&w_q), vec![0.0, 1.0, 1.0, 1.0]);
}

#[test]
fn absmean_ternary_handles_all_zero_input() {
    let w = Tensor::<F>::zeros(vec![2, 3]);
    let (w_q, gamma) = absmean_ternary(&w);
    assert_eq!(gamma.0, 0.0);
    assert!(w_q.data.iter().all(|v| v.0 == 0.0));
    assert_eq!(w_q.shape, vec![2, 3]);
}

#[test]
fn absmax_int8_per_row_scaling() {
    let x = tensor(vec![1.0, 2.0, -1.0, 0.5, 0.1, -0.4, 0.2, 0.3], vec![2, 4]);
    let (x_q, alpha) = absmax_int8(&x);

    assert_eq!(alpha.shape, vec![2]);
    assert!((alpha.data[0].0 - 2.0).abs() < 1e-5);
    assert!((alpha.data[1].0 - 0.4).abs() < 1e-5);

    assert_eq!(x_q.shape, vec![2, 4]);
    assert_eq!(
        nums(&x_q),
        vec![64.0, 127.0, -64.0, 32.0, 32.0, -127.0, 64.0, 95.0]
    );
}

#[test]
fn absmax_int8_handles_all_zero_row() {
    let x = tensor(vec![0.0, 0.0, 0.0, 1.0, 2.0, 3.0], vec![2, 3]);
    let (x_q, alpha) = absmax_int8(&x);

    assert_eq!(alpha.data[0].0, 0.0);
    assert_eq!(&nums(&x_q)[0..3], &[0.0, 0.0, 0.0]);

    assert!((alpha.data[1].0 - 3.0).abs() < 1e-5);
    assert_eq!(&nums(&x_q)[3..6], &[42.0, 85.0, 127.0]);
}

#[test]
fn absmax_int8_clamps_at_extreme_grid_edges() {
    let x = tensor(vec![5.0, -5.0, 2.5], vec![1, 3]);
    let (x_q, alpha) = absmax_int8(&x);
    assert_eq!(alpha.data[0].0, 5.0);
    assert_eq!(nums(&x_q), vec![127.0, -127.0, 64.0]);
}

#[test]
fn dequantised_values_are_grid_times_scale() {
    let w = tensor(vec![2.0, -2.0, 0.0, 0.0], vec![1, 4]);
    assert_eq!(nums(&dequantised_weights(&w)), vec![1.0, -1.0, 0.0, 0.0]);

    let x = tensor(vec![127.0, -64.0, 0.25, 0.0, 0.0, 0.0], vec![2, 3]);
    assert_eq!(
        nums(&dequantised_acts(&x)),
        vec![127.0, -64.0, 0.0, 0.0, 0.0, 0.0]
    );
}

#[test]
fn the_quantised_product_can_be_scaled_afterwards() {
    let x = tensor(vec![1.0, -2.0, 0.5, 0.25], vec![1, 4]);
    let w = tensor(vec![0.9, -1.1, 0.05, 1.3], vec![4, 1]);
    let whole = dequantised_acts(&x).matmul(&dequantised_weights(&w)).data[0].0;
    let (xq, alpha) = absmax_int8(&x);
    let (wq, gamma) = absmean_ternary(&w);
    let sum: f32 = nums(&xq).iter().zip(nums(&wq)).map(|(a, b)| a * b).sum();
    let scaled = sum * (alpha.data[0].0 * gamma.0 / 127.0);
    assert!((whole - scaled).abs() < 1e-5);
}
