use rsomics_het_tests::{
    aux_ncols, check_shape, choose_input, degrees_of_freedom, white_design, InputError,
    InputLayout,
};

#[test]
fn design_order_is_triu_rowmajor() {
    // one row, ncols=3 columns [2, 3, 5]: triu pairs (0,0)(0,1)(0,2)(1,1)(1,2)(2,2).
    let x = [2.0, 3.0, 5.0];
    let d = white_design(&x, 1, 3, |a: f64, b: f64| a * b);
    assert_eq!(d, vec![4.0, 6.0, 10.0, 9.0, 15.0, 25.0]);
    assert_eq!(aux_ncols(3), 6);
}

#[test]
fn aux_ncols_counts_upper_triangle() {
    assert_eq!(aux_ncols(0), 0);
    assert_eq!(aux_ncols(1), 1);
    assert_eq!(aux_ncols(2), 3);
    assert_eq!(aux_ncols(5), 15);
}

#[test]
fn design_rows_follow_input_rows() {
    // two rows with a constant column: the first aux columns repeat the design.
    let x = [1.0, 2.0, 3.0, 1.0, 4.0, 5.0];
    let d = white_design(&x, 2, 3, |a: f64, b: f64| a * b);
    assert_eq!(d.len(), 2 * 6);
    assert_eq!(&d[..6], &[1.0, 2.0, 3.0, 4.0, 6.0, 9.0]);
    assert_eq!(&d[6..], &[1.0, 4.0, 5.0, 16.0, 20.0, 25.0]);
    assert_eq!(&d[..3], &x[..3]);
    assert_eq!(&d[6..9], &x[3..6]);
}

#[test]
fn design_uses_the_given_product() {
    let x = [1u64, 2, 3];
    let d = white_design(&x, 1, 3, |a: u64, b: u64| a * 10 + b);
    assert_eq!(d, vec![11, 12, 13, 22, 23, 33]);
}

#[test]
fn design_of_no_rows_is_empty() {
    let x: [f64; 0] = [];
    assert!(white_design(&x, 0, 4, |a: f64, b: f64| a * b).is_empty());
}

#[test]
fn shape_rules_in_order() {
    assert_eq!(check_shape(5, 5, 2), Ok(()));
    assert_eq!(check_shape(4, 5, 2), Err(InputError::RowCountMismatch { nresid: 4, nobs: 5 }));
    assert_eq!(check_shape(4, 5, 1), Err(InputError::RowCountMismatch { nresid: 4, nobs: 5 }));
    assert_eq!(check_shape(5, 5, 1), Err(InputError::TooFewColumns));
    assert_eq!(check_shape(3, 3, 3), Err(InputError::TooFewObservations { nobs: 3, ncols: 3 }));
    assert_eq!(check_shape(2, 2, 3), Err(InputError::TooFewObservations { nobs: 2, ncols: 3 }));
}

#[test]
fn degrees_of_freedom_of_aux_fit() {
    let d = degrees_of_freedom(4, 2);
    assert_eq!((d.df_model, d.df_resid), (1, 2));
    let d = degrees_of_freedom(200, 15);
    assert_eq!((d.df_model, d.df_resid), (14, 185));
    assert_eq!(d.df_model + d.df_resid, 199);
}

#[test]
fn input_layout_choice() {
    assert_eq!(choose_input(true, true, false), Some(InputLayout::Separate));
    assert_eq!(choose_input(false, false, true), Some(InputLayout::Combined));
    assert_eq!(choose_input(true, false, false), None);
    assert_eq!(choose_input(false, true, false), None);
    assert_eq!(choose_input(true, true, true), None);
    assert_eq!(choose_input(false, false, false), None);
}
