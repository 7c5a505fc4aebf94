//! Degrees-of-freedom bookkeeping of the auxiliary regression.

use vstd::prelude::*;

verus! {

/// Degrees of freedom of a fitted regression.
#[derive(Clone, Copy, Debug, PartialEq, Eq, Structural)]
pub struct DegreesOfFreedom {
    /// Model degrees of freedom, `rank − 1` (the constant is not counted).
    pub df_model: usize,
    /// Residual degrees of freedom, `nobs − rank`.
    pub df_resid: usize,
}

/// Degrees of freedom of a regression on `nobs` observations whose design
/// (constant column included) has rank `rank`: `df_model = rank − 1`,
/// `df_resid = nobs − rank`; together they account for every observation
/// but the one the constant absorbs.
pub fn degrees_of_freedom(nobs: usize, rank: usize) -> (d: DegreesOfFreedom)
    requires
        1 <= rank <= nobs,
    ensures
        d.df_model == rank - 1,
        d.df_resid == nobs - rank,
        d.df_model + d.df_resid == nobs - 1,
{
    DegreesOfFreedom { df_model: rank - 1, df_resid: nobs - rank }
}

} // verus!
