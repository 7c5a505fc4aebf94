//! The two test kinds and the choice between the two input layouts.

use vstd::prelude::*;

verus! {

/// Which heteroscedasticity test to run.
#[derive(Clone, Copy, Debug, PartialEq, Eq, Structural)]
pub enum TestKind {
    /// Breusch-Pagan test, Koenker robust variant.
    Breuschpagan,
    /// White's test (design augmented with squares and cross-products).
    White,
}

/// Where the residuals and the design come from.
#[derive(Clone, Copy, Debug, PartialEq, Eq, Structural)]
pub enum InputLayout {
    /// A residual file and a separate design file.
    Separate,
    /// One file whose first column is the residual and the rest the design.
    Combined,
}

/// The layout selected by which of `--resid`, `--exog` and `--data` were given.
pub open spec fn spec_choose_input(has_resid: bool, has_exog: bool, has_data: bool) -> Option<InputLayout> {
    if has_resid && has_exog && !has_data {
        Some(InputLayout::Separate)
    } else if !has_resid && !has_exog && has_data {
        Some(InputLayout::Combined)
    } else {
        None
    }
}

/// The separate layout is chosen exactly when `--resid` and `--exog` are given
/// without `--data`, the combined layout exactly when `--data` is the only
/// input given, and every other combination is refused.
pub proof fn lemma_input_layout_choice(has_resid: bool, has_exog: bool, has_data: bool)
    ensures
        spec_choose_input(has_resid, has_exog, has_data) == Some(InputLayout::Separate) <==> (
        has_resid && has_exog && !has_data),
        spec_choose_input(has_resid, has_exog, has_data) == Some(InputLayout::Combined) <==> (
        !has_resid && !has_exog && has_data),
        spec_choose_input(has_resid, has_exog, has_data) is None <==> !((has_resid && has_exog
            && !has_data) || (!has_resid && !has_exog && has_data)),
{
}

/// Pick the input layout: both `--resid` and `--exog` without `--data` is the
/// separate layout, `--data` alone is the combined layout, and any other
/// combination is refused (`None`).
pub fn choose_input(has_resid: bool, has_exog: bool, has_data: bool) -> (res: Option<InputLayout>)
    ensures
        res == spec_choose_input(has_resid, has_exog, has_data),
        res == Some(InputLayout::Separate) <==> (has_resid && has_exog && !has_data),
        res == Some(InputLayout::Combined) <==> (!has_resid && !has_exog && has_data),
        res is None <==> !((has_resid && has_exog && !has_data) || (!has_resid && !has_exog
            && has_data)),
{
    proof {
        lemma_input_layout_choice(has_resid, has_exog, has_data);
    }
    if has_resid && has_exog && !has_data {
        Some(InputLayout::Separate)
    } else if !has_resid && !has_exog && has_data {
        Some(InputLayout::Combined)
    } else {
        None
    }
}

} // verus!
