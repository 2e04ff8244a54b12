//! An FM-index over a byte string, built from a rank bitmap and a wavelet
//! matrix over the Burrows-Wheeler transform of the text.
pub mod bit_vector;
pub mod seq_filter;
pub mod wavelet_matrix;
pub mod fmindex;

pub use bit_vector::BitVector;
pub use wavelet_matrix::{Operator, WaveletMatrix};
pub use fmindex::{BuildError, FMIndex, Range};
