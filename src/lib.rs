//! A bag-of-words spam classifier pipeline: corpus vectorization,
//! k-fold cross-validation splits, and fold slicing and scoring.

pub mod archive;
pub mod error;
pub mod matrix;
pub mod score;
pub mod split;
pub mod text;
pub mod vectorize;
