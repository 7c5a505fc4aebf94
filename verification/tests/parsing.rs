use rsomics_het_tests::{
    assemble_matrix, assemble_resid, combined_dataset, is_white_space, separate_dataset,
    tokenize_matrix, tokenize_resid, InputError, Matrix,
};

fn number(tok: &[char]) -> Option<f64> {
    let s: String = tok.iter().collect();
    fast_float2::parse::<f64, _>(s.as_bytes()).ok()
}

fn parse_matrix_values(text: &str) -> Result<Matrix<f64>, InputError> {
    let rows = tokenize_matrix(text);
    let parsed: Vec<Vec<Option<f64>>> = rows
        .iter()
        .map(|r| r.fields.iter().map(|f| number(f)).collect())
        .collect();
    assemble_matrix(&rows, &parsed)
}

fn parse_matrix(text: &str) -> Result<(Vec<f64>, usize, usize), InputError> {
    let m = parse_matrix_values(text)?;
    Ok((m.values, m.rows, m.width))
}

fn parse_resid(text: &str) -> Result<Vec<f64>, InputError> {
    let lines = tokenize_resid(text);
    let parsed: Vec<Option<f64>> = lines.iter().map(|l| number(&l.token)).collect();
    assemble_resid(&lines, &parsed)
}

#[test]
fn parses_matrix_shape() {
    let (v, r, c) = parse_matrix("1 2 3\n4 5 6\n").unwrap();
    assert_eq!((r, c), (2, 3));
    assert_eq!(v, vec![1.0, 2.0, 3.0, 4.0, 5.0, 6.0]);
}

#[test]
fn rejects_ragged_matrix() {
    assert!(parse_matrix("1 2 3\n4 5\n").is_err());
}

#[test]
fn combined_splits_resid_off() {
    let (raw, nobs, total) = parse_matrix("0.5 1 2\n0.6 1 3\n0.7 1 4\n").unwrap();
    assert_eq!((nobs, total), (3, 3));
    assert_eq!(raw[0], 0.5);
}

#[test]
fn ragged_row_reports_line_and_widths() {
    let err = parse_matrix("# header\n1 2 3\n\n4 5\n").unwrap_err();
    assert_eq!(err, InputError::RaggedRow { line: 4, row: 1, found: 2, width: 3 });
}

#[test]
fn bad_field_reports_line_and_position() {
    let err = parse_matrix("1 2\n3 x\n").unwrap_err();
    assert_eq!(err, InputError::NotANumber { line: 2, row: 1, field: 1 });
}

#[test]
fn earlier_bad_field_wins_over_later_ragged_row() {
    let err = parse_matrix("1 y 3\n4 5\n").unwrap_err();
    assert_eq!(err, InputError::NotANumber { line: 1, row: 0, field: 1 });
}

#[test]
fn ragged_row_is_refused_before_its_fields() {
    let err = parse_matrix("1 2 3\n4 z\n").unwrap_err();
    assert_eq!(err, InputError::RaggedRow { line: 2, row: 1, found: 2, width: 3 });
}

#[test]
fn empty_or_comment_only_matrix_is_refused() {
    assert_eq!(parse_matrix("").unwrap_err(), InputError::EmptyMatrix);
    assert_eq!(parse_matrix("\n  \n# c 1 2\n").unwrap_err(), InputError::EmptyMatrix);
}

#[test]
fn comments_blank_lines_and_mixed_whitespace() {
    let text = "# comment\n\n  1\t2 \r\n#3 4\n5\u{a0}6\u{3000}\n";
    let rows = tokenize_matrix(text);
    assert_eq!(rows.len(), 2);
    assert_eq!(rows[0].line, 3);
    assert_eq!(rows[1].line, 5);
    let (v, r, c) = parse_matrix(text).unwrap();
    assert_eq!((r, c), (2, 2));
    assert_eq!(v, vec![1.0, 2.0, 5.0, 6.0]);
}

#[test]
fn hash_inside_a_row_is_a_field() {
    let err = parse_matrix("1 #2\n").unwrap_err();
    assert_eq!(err, InputError::NotANumber { line: 1, row: 0, field: 1 });
}

#[test]
fn last_line_without_newline_is_read() {
    let (v, r, c) = parse_matrix("1 2\n3 4").unwrap();
    assert_eq!((r, c), (2, 2));
    assert_eq!(v, vec![1.0, 2.0, 3.0, 4.0]);
}

#[test]
fn whitespace_set_is_unicode_white_space() {
    for c in ['\t', '\n', '\u{b}', '\u{c}', '\r', ' ', '\u{85}', '\u{a0}', '\u{1680}', '\u{2000}',
        '\u{200a}', '\u{2028}', '\u{2029}', '\u{202f}', '\u{205f}', '\u{3000}']
    {
        assert!(is_white_space(c), "{c:?}");
        assert!(c.is_whitespace());
    }
    for c in ['a', '0', '#', '\u{200b}', '\u{feff}', '\u{1}', '-'] {
        assert!(!is_white_space(c), "{c:?}");
        assert_eq!(c.is_whitespace(), is_white_space(c));
    }
}

#[test]
fn resid_lines_are_trimmed_whole_lines() {
    let v = parse_resid("# r\n 1.5 \n\n-2\r\n3e1").unwrap();
    assert_eq!(v, vec![1.5, -2.0, 30.0]);
    let lines = tokenize_resid("# r\n 1.5 \n\n-2\r\n3e1");
    assert_eq!(lines.iter().map(|l| l.line).collect::<Vec<_>>(), vec![2, 4, 5]);
    assert_eq!(lines[0].token, vec!['1', '.', '5']);
}

#[test]
fn resid_line_with_two_values_is_not_a_number() {
    let err = parse_resid("1\n2 3\n").unwrap_err();
    assert_eq!(err, InputError::NotANumber { line: 2, row: 1, field: 0 });
}

#[test]
fn resid_file_without_values_is_refused() {
    assert_eq!(parse_resid("# only\n\n").unwrap_err(), InputError::NoResiduals);
}

#[test]
fn combined_matrix_splits_into_resid_and_design() {
    let m = parse_matrix_values("0.5 1 2\n0.6 1 3\n0.7 1 4\n").unwrap();
    let d = combined_dataset(&m).unwrap();
    assert_eq!(d.resid, vec![0.5, 0.6, 0.7]);
    assert_eq!(d.exog, vec![1.0, 2.0, 1.0, 3.0, 1.0, 4.0]);
    assert_eq!((d.nobs, d.ncols), (3, 2));
}

#[test]
fn combined_matrix_needs_two_columns() {
    let m = parse_matrix_values("1\n2\n3\n").unwrap();
    assert_eq!(combined_dataset(&m).unwrap_err(), InputError::CombinedTooNarrow);
}

#[test]
fn combined_matrix_shape_is_checked() {
    let m = parse_matrix_values("0.5 1 2\n0.6 1 3\n").unwrap();
    assert_eq!(
        combined_dataset(&m).unwrap_err(),
        InputError::TooFewObservations { nobs: 2, ncols: 2 }
    );
    let m = parse_matrix_values("0.5 1\n0.6 1\n0.7 1\n").unwrap();
    assert_eq!(combined_dataset(&m).unwrap_err(), InputError::TooFewColumns);
}

#[test]
fn separate_layout_matches_combined_layout() {
    let combined = "0.5\t1\t2\n0.6\t1\t3\n0.7\t1\t5\n0.1\t1\t8\n";
    let m = parse_matrix_values(combined).unwrap();
    let from_combined = combined_dataset(&m).unwrap();
    let resid = parse_resid("0.5\n0.6\n0.7\n0.1\n").unwrap();
    let exog = parse_matrix_values("1\t2\n1\t3\n1\t5\n1\t8\n").unwrap();
    let from_separate = separate_dataset(resid, exog).unwrap();
    assert_eq!(from_combined.resid, from_separate.resid);
    assert_eq!(from_combined.exog, from_separate.exog);
    assert_eq!(
        (from_combined.nobs, from_combined.ncols),
        (from_separate.nobs, from_separate.ncols)
    );
}

#[test]
fn separate_layout_row_counts_must_agree() {
    let resid = parse_resid("0.5\n0.6\n").unwrap();
    let exog = parse_matrix_values("1 2\n1 3\n1 5\n").unwrap();
    assert_eq!(
        separate_dataset(resid, exog).unwrap_err(),
        InputError::RowCountMismatch { nresid: 2, nobs: 3 }
    );
}

#[test]
fn separate_texts_with_own_comments_match_combined_text() {
    let combined = "# r x0 x1\n1.5 1 2\r\n\n2.5 1 4\n-1 1 9\n3 1 16";
    let resid = "1.5\n# skipped\n 2.5 \n-1\n\n3\n";
    let design = "1 2\n1 4\n\n# c\n1\t9\n1 16\n";
    let from_combined = combined_dataset(&parse_matrix_values(combined).unwrap()).unwrap();
    let from_separate =
        separate_dataset(parse_resid(resid).unwrap(), parse_matrix_values(design).unwrap()).unwrap();
    assert_eq!(from_combined.resid, vec![1.5, 2.5, -1.0, 3.0]);
    assert_eq!(from_combined.resid, from_separate.resid);
    assert_eq!(from_combined.exog, from_separate.exog);
    assert_eq!((from_separate.nobs, from_separate.ncols), (4, 2));
    // A non-number in the residual column fails both ways.
    assert!(parse_matrix_values("x 1 2\n").is_err());
    assert!(parse_resid("x\n").is_err());
}
