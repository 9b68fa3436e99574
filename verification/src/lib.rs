//! Single-pass butterfly kernels for decimation-based fast Fourier transforms.
//!
//! Every kernel computes exactly one pass of a radix-2 or radix-4
//! Cooley-Tukey decomposition over a buffer of samples, given a table of
//! twiddle factors and a stage index. The kernels are generic over the sample
//! arithmetic, so that the strided addressing is proved once for all of them.
//!
//! - [`sample`]: the arithmetic that a butterfly needs, and what makes it exact
//! - [`gauss`]: exact samples with integer components
//! - [`index`]: strides, stage validity and the index arithmetic
//! - [`radix2`]: the radix-2 pass, addressed by blocks and by mask
//! - [`radix4`]: the radix-4 pass and the twiddle-free pairwise combine
//! - [`linear`]: every pass is linear over exact samples
//! - [`compose`]: one radix-4 pass is two radix-2 passes
//! - [`dft`]: the radix-2 passes in a row compute the transform

pub mod sample;
pub mod gauss;
pub mod index;
pub mod radix2;
pub mod radix4;
pub mod linear;
pub mod compose;
pub mod dft;
