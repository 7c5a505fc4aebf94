//! The two input layouts agree: a combined file, and the residual file and
//! design file made of its first fields and its other fields, read to the
//! same dataset.

use vstd::prelude::*;

use crate::io::{
    all_numbers, combined_outcome, first_column, good_before, lemma_row_fits, lemma_row_of_append,
    matrix_outcome, other_columns, resid_outcome, row_is_good, row_of, separate_outcome,
    unwrap_all, InputError, Matrix,
};
use crate::text::{
    lines_of, matrix_rows, matrix_rows_view, resid_rows, resid_rows_view, MatrixRow, ResidLine,
};

verus! {

/// The parse outcomes `parsed` of the kept matrix rows `rows` are what
/// reading each field's text with `num` gives.
pub open spec fn matrix_parsed_by<T>(
    rows: Seq<MatrixRow>,
    parsed: Seq<Vec<Option<T>>>,
    num: spec_fn(Seq<char>) -> Option<T>,
) -> bool {
    &&& parsed.len() == rows.len()
    &&& forall|r: int| 0 <= r < rows.len() ==> (#[trigger] parsed[r])@.len() == rows[r].fields@.len()
    &&& forall|r: int, k: int|
        0 <= r < rows.len() && 0 <= k < rows[r].fields@.len() ==> #[trigger] parsed[r]@[k] == num(
            rows[r].fields@[k]@,
        )
}

/// The parse outcomes `parsed` of the kept residual lines `lines` are what
/// reading each line's text with `num` gives.
pub open spec fn resid_parsed_by<T>(
    lines: Seq<ResidLine>,
    parsed: Seq<Option<T>>,
    num: spec_fn(Seq<char>) -> Option<T>,
) -> bool {
    &&& parsed.len() == lines.len()
    &&& forall|r: int| 0 <= r < lines.len() ==> #[trigger] parsed[r] == num(lines[r].token@)
}

/// The kept lines of `resid_text` and the kept rows of `design_text` are,
/// row for row, the first field and the other fields of the kept rows of
/// `combined`, each of which is at least two fields wide.
pub open spec fn is_column_split(combined: Seq<char>, resid_text: Seq<char>, design_text: Seq<char>) -> bool {
    let c = matrix_rows(lines_of(combined), 1);
    let r = resid_rows(lines_of(resid_text), 1);
    let x = matrix_rows(lines_of(design_text), 1);
    &&& r.len() == c.len()
    &&& x.len() == c.len()
    &&& forall|i: int|
        0 <= i < c.len() ==> {
            &&& (#[trigger] c[i]).1.len() >= 2
            &&& r[i].1 == c[i].1[0]
            &&& x[i].1 == c[i].1.drop_first()
        }
}

/// What reading the combined layout gives, from the assembled matrix.
pub open spec fn combined_reading<T>(m: Result<Matrix<T>, InputError>) -> Result<
    (Seq<T>, Seq<T>, usize, usize),
    InputError,
> {
    match m {
        Ok(m) => combined_outcome(m.values@, m.rows, m.width),
        Err(e) => Err(e),
    }
}

/// What reading the separate layout gives, from the assembled residual
/// vector and design matrix (the residual file is read first).
pub open spec fn separate_reading<T>(
    resid: Result<Vec<T>, InputError>,
    design: Result<Matrix<T>, InputError>,
) -> Result<(Seq<T>, Seq<T>, usize, usize), InputError> {
    match resid {
        Err(e) => Err(e),
        Ok(v) => match design {
            Err(e) => Err(e),
            Ok(x) => separate_outcome(v@, x.values@, x.rows, x.width),
        },
    }
}

/// The two layouts read the same: take a combined text whose kept rows each
/// have at least two fields, a residual text whose kept lines are those rows'
/// first fields, and a design text whose kept rows are those rows' other
/// fields, row for row; tokenize them (`tokenize_matrix`, `tokenize_resid`),
/// read every field with the same number function `num`, and assemble them
/// (`assemble_matrix`, `assemble_resid`). Then the separate layout
/// (`separate_dataset`) succeeds exactly when the combined layout
/// (`combined_dataset`) does, and both give the same residuals, design,
/// observation count and column count.
pub proof fn lemma_separate_texts_match_combined<T>(
    combined: Seq<char>,
    resid_text: Seq<char>,
    design_text: Seq<char>,
    num: spec_fn(Seq<char>) -> Option<T>,
    c_rows: Seq<MatrixRow>,
    c_parsed: Seq<Vec<Option<T>>>,
    c_res: Result<Matrix<T>, InputError>,
    r_lines: Seq<ResidLine>,
    r_parsed: Seq<Option<T>>,
    r_res: Result<Vec<T>, InputError>,
    x_rows: Seq<MatrixRow>,
    x_parsed: Seq<Vec<Option<T>>>,
    x_res: Result<Matrix<T>, InputError>,
)
    requires
        is_column_split(combined, resid_text, design_text),
        matrix_rows_view(c_rows) == matrix_rows(lines_of(combined), 1),
        resid_rows_view(r_lines) == resid_rows(lines_of(resid_text), 1),
        matrix_rows_view(x_rows) == matrix_rows(lines_of(design_text), 1),
        matrix_parsed_by(c_rows, c_parsed, num),
        resid_parsed_by(r_lines, r_parsed, num),
        matrix_parsed_by(x_rows, x_parsed, num),
        matrix_outcome(c_rows, c_parsed, c_res),
        resid_outcome(r_lines, r_parsed, r_res),
        matrix_outcome(x_rows, x_parsed, x_res),
    ensures
        combined_reading(c_res) is Ok <==> separate_reading(r_res, x_res) is Ok,
        combined_reading(c_res) is Ok ==> combined_reading(c_res) == separate_reading(r_res, x_res),
{
    let n = c_rows.len() as int;
    lemma_split_fields(
        combined,
        resid_text,
        design_text,
        num,
        c_rows,
        c_parsed,
        r_lines,
        r_parsed,
        x_rows,
        x_parsed,
    );
    // Every combined row is good exactly when the residual and design are.
    if r_res is Ok && x_res is Ok {
        assert forall|i: int| 0 <= i < n implies #[trigger] row_is_good(c_rows, c_parsed, i) by {
            assert(row_is_good(x_rows, x_parsed, i));
            assert forall|k: int| 0 <= k < c_parsed[i]@.len() implies #[trigger] c_parsed[i]@[k] is Some by {
                if k == 0 {
                    assert(r_parsed[i] is Some);
                } else {
                    assert(x_parsed[i]@[k - 1] is Some);
                }
            }
        }
        assert(n > 0);
        match c_res {
            Err(InputError::RaggedRow { row, .. }) => {
                assert(row_is_good(c_rows, c_parsed, row as int));
            },
            Err(InputError::NotANumber { row, field, .. }) => {
                assert(row_is_good(c_rows, c_parsed, row as int));
                assert(c_parsed[row as int]@[field as int] is Some);
            },
            _ => {},
        }
        assert(c_res is Ok);
    }
    if let Ok(m) = c_res {
        let w = m.width as int;
        assert(c_rows[0].fields@.len() >= 2);
        assert(w >= 2);
        // The residual file reads to the first column.
        assert(all_numbers(r_parsed)) by {
            assert forall|i: int| 0 <= i < n implies #[trigger] r_parsed[i] is Some by {
                assert(row_is_good(c_rows, c_parsed, i));
                assert(c_parsed[i]@[0] is Some);
            }
        }
        match r_res {
            Err(InputError::NotANumber { row, .. }) => {
                assert(r_parsed[row as int] is Some);
            },
            _ => {},
        }
        assert(r_res is Ok);
        // The design file reads to the other columns.
        assert forall|i: int| 0 <= i < n implies #[trigger] row_is_good(x_rows, x_parsed, i) by {
            assert(row_is_good(c_rows, c_parsed, i));
            assert forall|k: int| 0 <= k < x_parsed[i]@.len() implies #[trigger] x_parsed[i]@[k] is Some by {
                assert(c_parsed[i]@[k + 1] is Some);
            }
        }
        match x_res {
            Err(InputError::RaggedRow { row, .. }) => {
                assert(row_is_good(x_rows, x_parsed, row as int));
            },
            Err(InputError::NotANumber { row, field, .. }) => {
                assert(row_is_good(x_rows, x_parsed, row as int));
                assert(x_parsed[row as int]@[field as int] is Some);
            },
            _ => {},
        }
        assert(x_res is Ok);
        let rv = r_res->Ok_0;
        let xm = x_res->Ok_0;
        assert(xm.rows == m.rows && xm.width == m.width - 1);
        // Residuals: the first column.
        assert forall|i: int| 0 <= i < n implies #[trigger] rv@[i] == first_column(
            m.values@,
            n,
            w,
        )[i] by {
            lemma_row_fits(i, n, w);
            assert(row_of(m.values@, i, w) == unwrap_all(c_parsed[i]@));
            assert(row_of(m.values@, i, w)[0] == m.values@[i * w]);
            assert(r_parsed[i] == c_parsed[i]@[0]);
        }
        assert(rv@ =~= first_column(m.values@, n, w));
        // Design: the other columns, row by row.
        lemma_other_columns_rows(m.values@, n, w);
        assert forall|i: int| 0 <= i < n implies #[trigger] row_of(xm.values@, i, w - 1) == row_of(
            other_columns(m.values@, n, w),
            i,
            w - 1,
        ) by {
            assert(row_of(m.values@, i, w) == unwrap_all(c_parsed[i]@));
            assert(row_of(xm.values@, i, w - 1) == unwrap_all(x_parsed[i]@));
            assert(unwrap_all(x_parsed[i]@) =~= unwrap_all(c_parsed[i]@).drop_first());
        }
        lemma_rows_determine(xm.values@, other_columns(m.values@, n, w), n, w - 1);
    }
}

/// Field by field, the residual and design parse outcomes are the combined
/// file's first and other outcomes.
proof fn lemma_split_fields<T>(
    combined: Seq<char>,
    resid_text: Seq<char>,
    design_text: Seq<char>,
    num: spec_fn(Seq<char>) -> Option<T>,
    c_rows: Seq<MatrixRow>,
    c_parsed: Seq<Vec<Option<T>>>,
    r_lines: Seq<ResidLine>,
    r_parsed: Seq<Option<T>>,
    x_rows: Seq<MatrixRow>,
    x_parsed: Seq<Vec<Option<T>>>,
)
    requires
        is_column_split(combined, resid_text, design_text),
        matrix_rows_view(c_rows) == matrix_rows(lines_of(combined), 1),
        resid_rows_view(r_lines) == resid_rows(lines_of(resid_text), 1),
        matrix_rows_view(x_rows) == matrix_rows(lines_of(design_text), 1),
        matrix_parsed_by(c_rows, c_parsed, num),
        resid_parsed_by(r_lines, r_parsed, num),
        matrix_parsed_by(x_rows, x_parsed, num),
    ensures
        r_lines.len() == c_rows.len(),
        x_rows.len() == c_rows.len(),
        c_parsed.len() == c_rows.len(),
        r_parsed.len() == c_rows.len(),
        x_parsed.len() == c_rows.len(),
        forall|i: int|
            0 <= i < c_rows.len() ==> {
                &&& (#[trigger] c_rows[i]).fields@.len() >= 2
                &&& c_parsed[i]@.len() == c_rows[i].fields@.len()
                &&& x_rows[i].fields@.len() == c_rows[i].fields@.len() - 1
                &&& x_parsed[i]@.len() == c_rows[i].fields@.len() - 1
                &&& r_parsed[i] == c_parsed[i]@[0]
                &&& forall|k: int|
                    0 <= k < x_parsed[i]@.len() ==> #[trigger] x_parsed[i]@[k] == c_parsed[i]@[k + 1]
            },
{
    let c = matrix_rows(lines_of(combined), 1);
    let r = resid_rows(lines_of(resid_text), 1);
    let x = matrix_rows(lines_of(design_text), 1);
    assert(c_rows.len() == c.len());
    assert(r_lines.len() == r.len());
    assert(x_rows.len() == x.len());
    assert forall|i: int| 0 <= i < c_rows.len() implies {
        &&& (#[trigger] c_rows[i]).fields@.len() >= 2
        &&& c_parsed[i]@.len() == c_rows[i].fields@.len()
        &&& x_rows[i].fields@.len() == c_rows[i].fields@.len() - 1
        &&& x_parsed[i]@.len() == c_rows[i].fields@.len() - 1
        &&& r_parsed[i] == c_parsed[i]@[0]
        &&& forall|k: int|
            0 <= k < x_parsed[i]@.len() ==> #[trigger] x_parsed[i]@[k] == c_parsed[i]@[k + 1]
    } by {
        assert(c[i] == matrix_rows_view(c_rows)[i]);
        assert(r[i] == resid_rows_view(r_lines)[i]);
        assert(x[i] == matrix_rows_view(x_rows)[i]);
        let cf = c[i].1;
        assert(cf.len() >= 2);
        assert(c_rows[i].fields@.len() == cf.len());
        assert(c_rows[i].fields@[0]@ == cf[0]);
        assert(r_lines[i].token@ == cf[0]);
        assert(c_parsed[i]@[0] == num(c_rows[i].fields@[0]@));
        assert(x[i].1 == cf.drop_first());
        assert(x[i].1 == crate::text::fields_view(x_rows[i].fields@));
        assert(crate::text::fields_view(x_rows[i].fields@).len() == x_rows[i].fields@.len());
        assert(cf.drop_first().len() == cf.len() - 1);
        assert(x_rows[i].fields@.len() == cf.len() - 1);
        assert forall|k: int| 0 <= k < x_parsed[i]@.len() implies #[trigger] x_parsed[i]@[k]
            == c_parsed[i]@[k + 1] by {
            assert(x_rows[i].fields@[k]@ == x[i].1[k]);
            assert(c_rows[i].fields@[k + 1]@ == cf[k + 1]);
            assert(x[i].1[k] == cf[k + 1]);
        }
    }
}

/// The rows of `other_columns` are the rows of the matrix without their first
/// entry.
proof fn lemma_other_columns_rows<T>(values: Seq<T>, n: int, w: int)
    requires
        0 <= n,
        1 <= w,
        n * w <= values.len(),
    ensures
        other_columns(values, n, w).len() == n * (w - 1),
        forall|i: int|
            0 <= i < n ==> #[trigger] row_of(other_columns(values, n, w), i, w - 1) == row_of(
                values,
                i,
                w,
            ).drop_first(),
    decreases n,
{
    if n == 0 {
        assert(n * (w - 1) == 0) by (nonlinear_arith)
            requires
                n == 0,
        ;
    } else {
        assert((n - 1) * w <= n * w) by (nonlinear_arith)
            requires
                1 <= n,
                1 <= w,
        ;
        lemma_other_columns_rows(values, n - 1, w);
        lemma_row_fits(n - 1, n, w);
        let prefix = other_columns(values, n - 1, w);
        let tail = row_of(values, n - 1, w).drop_first();
        assert(tail.len() == w - 1);
        assert(n * (w - 1) == (n - 1) * (w - 1) + (w - 1)) by (nonlinear_arith);
        assert forall|i: int| 0 <= i < n implies #[trigger] row_of(
            other_columns(values, n, w),
            i,
            w - 1,
        ) == row_of(values, i, w).drop_first() by {
            if i < n - 1 {
                assert((i + 1) * (w - 1) <= (n - 1) * (w - 1)) by (nonlinear_arith)
                    requires
                        i + 1 <= n - 1,
                        1 <= w,
                ;
                lemma_row_of_append(prefix, tail, i, w - 1);
            } else {
                lemma_row_of_append(prefix, tail, i, w - 1);
            }
        }
    }
}

/// Two row-major `n × w` matrices with the same rows are the same.
proof fn lemma_rows_determine<T>(s: Seq<T>, t: Seq<T>, n: int, w: int)
    requires
        0 <= n,
        0 <= w,
        s.len() == n * w,
        t.len() == n * w,
        forall|i: int| 0 <= i < n ==> #[trigger] row_of(s, i, w) == row_of(t, i, w),
    ensures
        s == t,
{
    assert forall|k: int| 0 <= k < s.len() implies s[k] == t[k] by {
        let i = k / w;
        let j = k % w;
        assert(w > 0) by (nonlinear_arith)
            requires
                0 <= k < n * w,
                0 <= w,
                0 <= n,
        ;
        assert(k == i * w + j && 0 <= j < w && 0 <= i < n) by (nonlinear_arith)
            requires
                w > 0,
                0 <= k < n * w,
                i == k / w,
                j == k % w,
        ;
        lemma_row_fits(i, n, w);
        assert(row_of(s, i, w)[j] == s[k]);
        assert(row_of(t, i, w)[j] == t[k]);
    }
    assert(s =~= t);
}

} // verus!
