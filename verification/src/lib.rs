//! Breusch-Pagan (Koenker robust variant) and White Lagrange-multiplier tests
//! for heteroscedasticity on OLS residuals: the verified, integer and
//! structural part of the library.
//!
//! What stands here: the input grammar (lines, comments, whitespace-separated
//! fields, rectangular rows, the residual column of a combined file), the
//! shape checks on a problem, White's auxiliary-design layout (every square
//! and cross-product of the columns, in upper-triangular row-major order),
//! the degrees-of-freedom bookkeeping of the auxiliary regression, and the
//! choice of input layout. Number values are generic (`T`), so the
//! floating-point arithmetic of the regression and of the p-values stays
//! with the caller.

pub mod cli;
pub mod io;
pub mod layouts;
pub mod ols;
pub mod text;
pub mod white;

pub use cli::{choose_input, InputLayout, TestKind};
pub use io::{
    assemble_matrix, assemble_resid, check_shape, combined_dataset, separate_dataset, Dataset,
    InputError, Matrix,
};
pub use ols::{degrees_of_freedom, DegreesOfFreedom};
pub use text::{is_white_space, tokenize_matrix, tokenize_resid, MatrixRow, ResidLine};
pub use white::{aux_ncols, white_design};
