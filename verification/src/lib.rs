//! Host side of a GPU-accelerated proving pipeline over the Goldilocks field: batched
//! transforms, Merkle trees in the linear layout of the device, and transposition with bit
//! reversal.
//!
//! Each operation decides whether the host or the device does the work. For the device it
//! produces a request, and reads the result out of what the device hands back.

pub mod bits;
pub mod device;
pub mod fft;
pub mod fft_gpu;
pub mod goldilocks;
pub mod gpu;
pub mod hasher;
pub mod merkle_device;
pub mod merkle_layout;
pub mod merkle_tree_gpu;
pub mod modular;
pub mod polynomial;
pub mod roots;
pub mod rows;
pub mod transpose_gpu;
