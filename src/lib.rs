//! Compressed-sparse-column matrices over the wrapping 64-bit integers, with
//! transpose, addition, multiplication and conversion to and from dense form.
pub mod scalar;
pub mod storage;
pub mod cs_matrix;
pub mod dense;
pub mod laws;
