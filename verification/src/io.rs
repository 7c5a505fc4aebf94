//! Assembling parsed input into a problem: the residual vector, the
//! rectangular design matrix, the split of a combined file, and the shape
//! checks on the result.
//!
//! Number values are generic: the caller converts each field's text to a
//! number (`None` when the text is not a number) and hands those outcomes in,
//! one per field; the functions here decide which error, if any, the input
//! gives, in the order in which the original text is read.

use vstd::prelude::*;

use crate::text::{MatrixRow, ResidLine};

verus! {

/// Why an input was refused.
#[derive(Clone, Copy, Debug, PartialEq, Eq, Structural)]
pub enum InputError {
    /// Field `field` of kept row `row` (on line `line`) is not a number.
    NotANumber { line: usize, row: usize, field: usize },
    /// Kept row `row` (on line `line`) has `found` fields, but the matrix is
    /// `width` wide.
    RaggedRow { line: usize, row: usize, found: usize, width: usize },
    /// The matrix file has no kept row.
    EmptyMatrix,
    /// The residual file has no kept line.
    NoResiduals,
    /// A combined file needs the residual plus at least one design column.
    CombinedTooNarrow,
    /// The residual vector and the design have different row counts.
    RowCountMismatch { nresid: usize, nobs: usize },
    /// The design needs the constant column plus at least one regressor.
    TooFewColumns,
    /// There must be more observations than regressors.
    TooFewObservations { nobs: usize, ncols: usize },
}

/// A rectangular matrix, row-major.
#[derive(Debug)]
pub struct Matrix<T> {
    /// The entries, row after row.
    pub values: Vec<T>,
    /// Number of rows.
    pub rows: usize,
    /// Number of columns.
    pub width: usize,
}

impl<T> Matrix<T> {
    /// The entries fill exactly `rows × width` places.
    pub open spec fn wf(&self) -> bool {
        self.values@.len() == self.rows * self.width
    }
}

/// A parsed problem: the residual vector and the row-major `nobs × ncols` design.
#[derive(Debug)]
pub struct Dataset<T> {
    /// The residuals, one per observation.
    pub resid: Vec<T>,
    /// The design, row-major, constant column included.
    pub exog: Vec<T>,
    /// Number of observations.
    pub nobs: usize,
    /// Number of design columns.
    pub ncols: usize,
}

/// Row `i` of a row-major matrix `s` that is `w` wide.
pub open spec fn row_of<T>(s: Seq<T>, i: int, w: int) -> Seq<T> {
    s.subrange(i * w, (i + 1) * w)
}

/// The numbers of a sequence of parse outcomes that all succeeded.
pub open spec fn unwrap_all<T>(p: Seq<Option<T>>) -> Seq<T> {
    Seq::new(p.len(), |k: int| p[k]->0)
}

/// Every parse outcome in `p` is a number.
pub open spec fn all_numbers<T>(p: Seq<Option<T>>) -> bool {
    forall|k: int| 0 <= k < p.len() ==> #[trigger] p[k] is Some
}

/// Kept row `r` is as wide as the first kept row and all its fields are numbers.
pub open spec fn row_is_good<T>(rows: Seq<MatrixRow>, parsed: Seq<Vec<Option<T>>>, r: int) -> bool {
    &&& rows[r].fields@.len() == rows[0].fields@.len()
    &&& all_numbers(parsed[r]@)
}

/// Every kept row before `r` is good.
pub open spec fn good_before<T>(rows: Seq<MatrixRow>, parsed: Seq<Vec<Option<T>>>, r: int) -> bool {
    forall|r2: int| 0 <= r2 < r ==> #[trigger] row_is_good(rows, parsed, r2)
}

/// `k` is the first field of `p` that is not a number.
pub open spec fn first_not_number<T>(p: Seq<Option<T>>, k: int) -> bool {
    &&& 0 <= k < p.len()
    &&& p[k] is None
    &&& forall|k2: int| 0 <= k2 < k ==> #[trigger] p[k2] is Some
}

/// What assembling kept matrix rows from their parse outcomes gives: the
/// first row (in text order) that is either narrower or wider than the first
/// row, or has a field that is not a number, decides the error (the width is
/// tested before the row's fields); with no such row the matrix is the
/// numbers, row after row; with no row at all the matrix is empty.
pub open spec fn matrix_outcome<T>(
    rows: Seq<MatrixRow>,
    parsed: Seq<Vec<Option<T>>>,
    res: Result<Matrix<T>, InputError>,
) -> bool {
    match res {
        Ok(m) => {
            &&& rows.len() > 0
            &&& good_before(rows, parsed, rows.len() as int)
            &&& m.rows == rows.len()
            &&& m.width == rows[0].fields@.len()
            &&& m.wf()
            &&& forall|r: int|
                0 <= r < rows.len() ==> #[trigger] row_of(m.values@, r, m.width as int)
                    == unwrap_all(parsed[r]@)
        },
        Err(InputError::EmptyMatrix) => rows.len() == 0,
        Err(InputError::RaggedRow { line, row, found, width }) => {
            &&& 0 <= row < rows.len()
            &&& good_before(rows, parsed, row as int)
            &&& line == rows[row as int].line
            &&& found == rows[row as int].fields@.len()
            &&& width == rows[0].fields@.len()
            &&& found != width
        },
        Err(InputError::NotANumber { line, row, field }) => {
            &&& 0 <= row < rows.len()
            &&& good_before(rows, parsed, row as int)
            &&& line == rows[row as int].line
            &&& rows[row as int].fields@.len() == rows[0].fields@.len()
            &&& first_not_number(parsed[row as int]@, field as int)
        },
        Err(_) => false,
    }
}

/// What assembling kept residual lines from their parse outcomes gives: the
/// first line that is not a number decides the error; otherwise the numbers,
/// unless there is no line at all.
pub open spec fn resid_outcome<T>(
    lines: Seq<ResidLine>,
    parsed: Seq<Option<T>>,
    res: Result<Vec<T>, InputError>,
) -> bool {
    match res {
        Ok(v) => lines.len() > 0 && all_numbers(parsed) && v@ == unwrap_all(parsed),
        Err(InputError::NoResiduals) => lines.len() == 0,
        Err(InputError::NotANumber { line, row, field }) => {
            &&& field == 0
            &&& first_not_number(parsed, row as int)
            &&& line == lines[row as int].line
        },
        Err(_) => false,
    }
}

/// The shape rules on a problem with `nresid` residuals and an `nobs × ncols`
/// design, tested in this order: as many residuals as rows, at least two
/// columns, more rows than columns.
pub open spec fn shape_check(nresid: usize, nobs: usize, ncols: usize) -> Result<(), InputError> {
    if nresid != nobs {
        Err(InputError::RowCountMismatch { nresid, nobs })
    } else if ncols < 2 {
        Err(InputError::TooFewColumns)
    } else if nobs <= ncols {
        Err(InputError::TooFewObservations { nobs, ncols })
    } else {
        Ok(())
    }
}

/// The first column of a row-major `rows × total` matrix.
pub open spec fn first_column<T>(values: Seq<T>, rows: int, total: int) -> Seq<T> {
    Seq::new(rows as nat, |r: int| values[r * total])
}

/// The remaining columns of the first `rows` rows of a row-major matrix that
/// is `total` wide, row-major.
pub open spec fn other_columns<T>(values: Seq<T>, rows: int, total: int) -> Seq<T>
    decreases rows,
{
    if rows <= 0 {
        Seq::empty()
    } else {
        other_columns(values, rows - 1, total) + row_of(values, rows - 1, total).drop_first()
    }
}

/// The dataset made from a residual vector and a design matrix, as
/// `(resid, exog, nobs, ncols)`, or the shape rule they break.
pub open spec fn separate_outcome<T>(resid: Seq<T>, exog: Seq<T>, nobs: usize, ncols: usize) -> Result<
    (Seq<T>, Seq<T>, usize, usize),
    InputError,
> {
    match shape_check(resid.len() as usize, nobs, ncols) {
        Ok(()) => Ok((resid, exog, nobs, ncols)),
        Err(e) => Err(e),
    }
}

/// The dataset made from a combined `rows × total` matrix, whose first column
/// is the residual and whose other columns are the design, as
/// `(resid, exog, nobs, ncols)`, or the rule it breaks.
pub open spec fn combined_outcome<T>(values: Seq<T>, rows: usize, total: usize) -> Result<
    (Seq<T>, Seq<T>, usize, usize),
    InputError,
> {
    if total < 2 {
        Err(InputError::CombinedTooNarrow)
    } else {
        match shape_check(rows, rows, (total - 1) as usize) {
            Ok(()) => Ok(
                (
                    first_column(values, rows as int, total as int),
                    other_columns(values, rows as int, total as int),
                    rows,
                    (total - 1) as usize,
                ),
            ),
            Err(e) => Err(e),
        }
    }
}

/// The view of a dataset as `(resid, exog, nobs, ncols)`.
pub open spec fn dataset_view<T>(d: Dataset<T>) -> (Seq<T>, Seq<T>, usize, usize) {
    (d.resid@, d.exog@, d.nobs, d.ncols)
}

/// The view of a dataset result.
pub open spec fn dataset_result_view<T>(res: Result<Dataset<T>, InputError>) -> Result<
    (Seq<T>, Seq<T>, usize, usize),
    InputError,
> {
    match res {
        Ok(d) => Ok(dataset_view(d)),
        Err(e) => Err(e),
    }
}

/// A combined file and its split into a residual vector and a design give the
/// same dataset: reading the first column as the residuals and the other
/// columns as the design, separately, yields exactly what the combined layout
/// yields (for a matrix at least two columns wide).
pub proof fn lemma_separate_matches_combined<T>(values: Seq<T>, rows: usize, total: usize)
    requires
        total >= 2,
        values.len() == rows * total,
    ensures
        separate_outcome(
            first_column(values, rows as int, total as int),
            other_columns(values, rows as int, total as int),
            rows,
            (total - 1) as usize,
        ) == combined_outcome(values, rows, total),
{
}

/// Row `i` of `nobs` rows of width `n` lies inside `nobs·n`.
pub(crate) proof fn lemma_row_fits(i: int, nobs: int, n: int)
    requires
        0 <= i < nobs,
        0 <= n,
    ensures
        0 <= i * n,
        i * n + n <= nobs * n,
        (i + 1) * n == i * n + n,
{
    assert((i + 1) * n == i * n + n) by (nonlinear_arith);
    assert(i * n + n <= nobs * n) by (nonlinear_arith)
        requires
            0 <= i < nobs,
            0 <= n,
    ;
    assert(0 <= i * n) by (nonlinear_arith)
        requires
            0 <= i,
            0 <= n,
    ;
}

/// Appending a `w`-long row after `i` full rows leaves rows `< i` as they were
/// and makes the new row row `i`.
pub(crate) proof fn lemma_row_of_append<T>(prefix: Seq<T>, row: Seq<T>, j: int, w: int)
    requires
        0 <= w,
        row.len() == w,
        0 <= j,
    ensures
        j * w == prefix.len() ==> row_of(prefix + row, j, w) == row,
        (j + 1) * w <= prefix.len() ==> row_of(prefix + row, j, w) == row_of(prefix, j, w),
{
    assert((j + 1) * w == j * w + w) by (nonlinear_arith);
    if j * w == prefix.len() {
        assert(row_of(prefix + row, j, w) =~= row);
    }
    if (j + 1) * w <= prefix.len() {
        assert(0 <= j * w) by (nonlinear_arith)
            requires
                0 <= j,
                0 <= w,
        ;
        assert(row_of(prefix + row, j, w) =~= row_of(prefix, j, w));
    }
}

/// The shape rules accept exactly the problems with as many residuals as
/// design rows, at least two design columns, and more rows than columns; a
/// residual count that differs from the row count (larger or smaller) is
/// refused with both counts, a design narrower than two columns is refused
/// next, and a design with no more rows than columns last.
pub proof fn lemma_shape_rules(nresid: usize, nobs: usize, ncols: usize)
    ensures
        shape_check(nresid, nobs, ncols) is Ok <==> (nresid == nobs && 2 <= ncols && ncols < nobs),
        nresid != nobs ==> shape_check(nresid, nobs, ncols) == Err::<(), InputError>(
            InputError::RowCountMismatch { nresid, nobs },
        ),
        nresid == nobs && ncols < 2 ==> shape_check(nresid, nobs, ncols) == Err::<(), InputError>(
            InputError::TooFewColumns,
        ),
        nresid == nobs && 2 <= ncols && nobs <= ncols ==> shape_check(nresid, nobs, ncols) == Err::<
            (),
            InputError,
        >(InputError::TooFewObservations { nobs, ncols }),
{
}

/// Check the shape of a problem with `nresid` residuals and an
/// `nobs × ncols` design.
pub fn check_shape(nresid: usize, nobs: usize, ncols: usize) -> (res: Result<(), InputError>)
    ensures
        res == shape_check(nresid, nobs, ncols),
        res is Ok <==> (nresid == nobs && 2 <= ncols && ncols < nobs),
        nresid != nobs ==> res == Err::<(), InputError>(InputError::RowCountMismatch { nresid, nobs }),
        nresid == nobs && ncols < 2 ==> res == Err::<(), InputError>(InputError::TooFewColumns),
        nresid == nobs && 2 <= ncols && nobs <= ncols ==> res == Err::<(), InputError>(
            InputError::TooFewObservations { nobs, ncols },
        ),
{
    proof {
        lemma_shape_rules(nresid, nobs, ncols);
    }
    if nresid != nobs {
        return Err(InputError::RowCountMismatch { nresid, nobs });
    }
    if ncols < 2 {
        return Err(InputError::TooFewColumns);
    }
    if nobs <= ncols {
        return Err(InputError::TooFewObservations { nobs, ncols });
    }
    Ok(())
}


/// Assemble the kept rows of a matrix file into a matrix, given the outcome
/// of reading each field as a number (`parsed[r][k]` for field `k` of row
/// `r`, `None` when it is not a number). The rows are taken in order; a row
/// whose width differs from the first row's is refused before its fields, and
/// within a row the first field that is not a number is refused.
pub fn assemble_matrix<T: Copy>(rows: &Vec<MatrixRow>, parsed: &Vec<Vec<Option<T>>>) -> (res: Result<
    Matrix<T>,
    InputError,
>)
    requires
        parsed@.len() == rows@.len(),
        forall|r: int| 0 <= r < rows@.len() ==> (#[trigger] parsed@[r])@.len() == rows@[r].fields@.len(),
    ensures
        matrix_outcome(rows@, parsed@, res),
{
    if rows.len() == 0 {
        return Err(InputError::EmptyMatrix);
    }
    let w = rows[0].fields.len();
    let mut values: Vec<T> = Vec::new();
    let mut r: usize = 0;
    while r < rows.len()
        invariant
            r <= rows@.len(),
            rows@.len() > 0,
            w == rows@[0].fields@.len(),
            parsed@.len() == rows@.len(),
            forall|r2: int| 0 <= r2 < rows@.len() ==> (#[trigger] parsed@[r2])@.len() == rows@[r2].fields@.len(),
            good_before(rows@, parsed@, r as int),
            values@.len() == r * w,
            forall|r2: int|
                0 <= r2 < r ==> #[trigger] row_of(values@, r2, w as int) == unwrap_all(parsed@[r2]@),
        decreases rows@.len() - r,
    {
        let found = rows[r].fields.len();
        if found != w {
            return Err(InputError::RaggedRow { line: rows[r].line, row: r, found, width: w });
        }
        let pr = &parsed[r];
        let ghost prefix = values@;
        let mut k: usize = 0;
        while k < pr.len()
            invariant
                k <= pr@.len(),
                pr@.len() == w,
                pr == parsed@[r as int],
                r < rows@.len(),
                rows@[r as int].fields@.len() == w,
                w == rows@[0].fields@.len(),
                good_before(rows@, parsed@, r as int),
                values@ == prefix + unwrap_all(pr@).take(k as int),
                forall|k2: int| 0 <= k2 < k ==> #[trigger] pr@[k2] is Some,
            decreases pr@.len() - k,
        {
            match pr[k] {
                Some(v) => {
                    values.push(v);
                    assert(unwrap_all(pr@).take(k + 1) =~= unwrap_all(pr@).take(k as int).push(v));
                },
                None => {
                    assert(first_not_number(parsed@[r as int]@, k as int));
                    return Err(InputError::NotANumber { line: rows[r].line, row: r, field: k });
                },
            }
            k = k + 1;
        }
        proof {
            assert(unwrap_all(pr@).take(k as int) =~= unwrap_all(pr@));
            assert(row_is_good(rows@, parsed@, r as int));
            assert((r + 1) * w == r * w + w) by (nonlinear_arith);
            lemma_row_of_append(prefix, unwrap_all(pr@), r as int, w as int);
            assert forall|r2: int| 0 <= r2 < r + 1 implies #[trigger] row_of(values@, r2, w as int)
                == unwrap_all(parsed@[r2]@) by {
                if r2 < r {
                    assert((r2 + 1) * w <= r * w) by (nonlinear_arith)
                        requires
                            r2 + 1 <= r,
                    ;
                    lemma_row_of_append(prefix, unwrap_all(pr@), r2, w as int);
                }
            }
        }
        r = r + 1;
    }
    Ok(Matrix { values, rows: rows.len(), width: w })
}

/// Assemble the kept lines of a residual file into the residual vector, given
/// the outcome of reading each line as a number (`None` when it is not a
/// number). The first line that is not a number is refused; a file with no
/// kept line is refused after that.
pub fn assemble_resid<T: Copy>(lines: &Vec<ResidLine>, parsed: &Vec<Option<T>>) -> (res: Result<
    Vec<T>,
    InputError,
>)
    requires
        parsed@.len() == lines@.len(),
    ensures
        resid_outcome(lines@, parsed@, res),
{
    let mut out: Vec<T> = Vec::new();
    let mut k: usize = 0;
    while k < parsed.len()
        invariant
            k <= parsed@.len(),
            parsed@.len() == lines@.len(),
            out@ == unwrap_all(parsed@).take(k as int),
            forall|k2: int| 0 <= k2 < k ==> #[trigger] parsed@[k2] is Some,
        decreases parsed@.len() - k,
    {
        match parsed[k] {
            Some(v) => {
                out.push(v);
                assert(unwrap_all(parsed@).take(k + 1) =~= unwrap_all(parsed@).take(k as int).push(
                    v,
                ));
            },
            None => {
                assert(first_not_number(parsed@, k as int));
                return Err(InputError::NotANumber { line: lines[k].line, row: k, field: 0 });
            },
        }
        k = k + 1;
    }
    if out.len() == 0 {
        return Err(InputError::NoResiduals);
    }
    assert(unwrap_all(parsed@).take(k as int) =~= unwrap_all(parsed@));
    Ok(out)
}

/// Make the dataset of a residual vector and a separate design matrix,
/// checking its shape.
pub fn separate_dataset<T>(resid: Vec<T>, exog: Matrix<T>) -> (res: Result<Dataset<T>, InputError>)
    ensures
        dataset_result_view(res) == separate_outcome(resid@, exog.values@, exog.rows, exog.width),
        res is Ok <==> (resid@.len() == exog.rows && 2 <= exog.width && exog.width < exog.rows),
        resid@.len() != exog.rows ==> (res matches Err(InputError::RowCountMismatch { nresid, nobs })
            && nresid == resid@.len() && nobs == exog.rows),
{
    proof {
        lemma_shape_rules(resid@.len() as usize, exog.rows, exog.width);
    }
    match check_shape(resid.len(), exog.rows, exog.width) {
        Ok(()) => Ok(Dataset { resid, exog: exog.values, nobs: exog.rows, ncols: exog.width }),
        Err(e) => Err(e),
    }
}

/// Make the dataset of a combined matrix: column 0 of each row is that
/// observation's residual, the remaining columns are its design row.
pub fn combined_dataset<T: Copy>(m: &Matrix<T>) -> (res: Result<Dataset<T>, InputError>)
    requires
        m.wf(),
    ensures
        dataset_result_view(res) == combined_outcome(m.values@, m.rows, m.width),
        res is Ok <==> (2 <= m.width && m.width - 1 < m.rows && 2 <= m.width - 1),
        res matches Ok(d) ==> (d.resid@.len() == d.nobs && d.nobs == m.rows && d.ncols == m.width
            - 1),
{
    proof {
        if m.width >= 2 {
            lemma_shape_rules(m.rows, m.rows, (m.width - 1) as usize);
        }
    }
    let total = m.width;
    let nobs = m.rows;
    if total < 2 {
        return Err(InputError::CombinedTooNarrow);
    }
    let ncols = total - 1;
    let vlen = m.values.len();
    let mut resid: Vec<T> = Vec::new();
    let mut exog: Vec<T> = Vec::new();
    let mut r: usize = 0;
    while r < nobs
        invariant
            r <= nobs,
            nobs == m.rows,
            total == m.width,
            total >= 2,
            ncols == total - 1,
            m.values@.len() == nobs * total,
            vlen == m.values@.len(),
            resid@ == first_column(m.values@, r as int, total as int),
            exog@ == other_columns(m.values@, r as int, total as int),
        decreases nobs - r,
    {
        proof {
            lemma_row_fits(r as int, nobs as int, total as int);
        }
        let base = r * total;
        resid.push(m.values[base]);
        assert(resid@ =~= first_column(m.values@, r + 1, total as int));
        let ghost prefix = exog@;
        let ghost row = row_of(m.values@, r as int, total as int);
        let mut c: usize = 1;
        while c < total
            invariant
                1 <= c <= total,
                base + total <= m.values@.len(),
                vlen == m.values@.len(),
                row == m.values@.subrange(base as int, base + total),
                exog@ == prefix + row.subrange(1, c as int),
            decreases total - c,
        {
            exog.push(m.values[base + c]);
            assert(row.subrange(1, c + 1) =~= row.subrange(1, c as int).push(row[c as int]));
            c = c + 1;
        }
        assert(row.subrange(1, total as int) =~= row.drop_first());
        r = r + 1;
    }
    match check_shape(nobs, nobs, ncols) {
        Ok(()) => Ok(Dataset { resid, exog, nobs, ncols }),
        Err(e) => Err(e),
    }
}

} // verus!
