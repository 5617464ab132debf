//! Multi-scalar multiplication over elliptic-curve groups of prime order: the sum of points,
//! each multiplied by a coefficient of its own.
//!
//! * [`msm_small`] multiplies by machine words, and picks the algorithm by their size;
//! * [`msm_gpu`] multiplies by field elements in kernels, [`cpu_msm_serial`] on one thread.
//!
//! What each of them returns is stated over the logarithms of the points, see [`curve`].

pub mod bn256;
pub mod buckets;
pub mod bytes;
pub mod curve;
pub mod digits;
pub mod dispatch;
pub mod gpu;
pub mod integers;
pub mod kernels;
pub mod laws;
pub mod parallel;
pub mod serial;
pub mod small;
pub mod sums;
pub mod windows;

pub use crate::dispatch::{msm_small, msm_small_with_max_num_bits};
pub use crate::gpu::{msm_binary, msm_binary_gpu, msm_gpu, msm_gpu_inner, MAX_BLOCK_DIM};
pub use crate::kernels::{msm_binary_kernel, msm_kernel, reduce_sum};
pub use crate::serial::cpu_msm_serial;
