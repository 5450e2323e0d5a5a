//! Rectangular matrices of samples, one candidate per row, held in an
//! `ndarray` array.

use vstd::prelude::*;
use ndarray::{Array2, Axis};

verus! {

/// A matrix of samples: one candidate per row, one item type per column.
#[verifier::external_body]
#[derive(Debug)]
pub struct SampleMatrix {
    cells: Array2<u32>,
}

/// The rows of a matrix, first row first.
pub uninterp spec fn matrix_rows(m: SampleMatrix) -> Seq<Seq<u32>>;

/// The number of columns that a matrix was made with.
pub uninterp spec fn matrix_width(m: SampleMatrix) -> nat;

/// The sum of column `j` over `rows`.
pub open spec fn column_sum(rows: Seq<Seq<u32>>, j: int) -> int
    decreases rows.len(),
{
    if rows.len() == 0 {
        0
    } else {
        column_sum(rows.drop_last(), j) + rows.last()[j]
    }
}

/// The rows of `width` cells each into which `cells` falls, row after row.
pub open spec fn rows_of(cells: Seq<u32>, count: int, width: int) -> Seq<Seq<u32>> {
    Seq::new(count as nat, |i: int| cells.subrange(i * width, i * width + width))
}

/// The cells of `rows`, row after row.
pub open spec fn flatten(rows: Seq<Seq<u32>>) -> Seq<u32>
    decreases rows.len(),
{
    if rows.len() == 0 {
        Seq::empty()
    } else {
        flatten(rows.drop_last()) + rows.last()
    }
}

/// Every row has `width` cells.
pub open spec fn all_of_width(rows: Seq<Seq<u32>>, width: int) -> bool {
    forall|i: int| 0 <= i < rows.len() ==> (#[trigger] rows[i]).len() == width
}

/// Every cell is 0 or 1.
pub open spec fn all_binary(rows: Seq<Seq<u32>>) -> bool {
    forall|i: int, j: int|
        0 <= i < rows.len() && 0 <= j < rows[i].len() ==> #[trigger] rows[i][j] <= 1
}

/// What the vectors of `rows` hold, row by row.
pub open spec fn rows_view(rows: Seq<Vec<u32>>) -> Seq<Seq<u32>> {
    Seq::new(rows.len(), |i: int| rows[i]@)
}

/// The length of the first row, or 0 where there is none.
pub open spec fn first_width(rows: Seq<Seq<u32>>) -> int {
    if rows.len() == 0 {
        0
    } else {
        rows[0].len() as int
    }
}

/// A matrix of `count` rows and `width` columns can be made of `cells` cells:
/// there is one cell for each place, and the lengths of the axes that are not
/// zero multiply to no more than `isize::MAX`.
pub open spec fn shape_holds(count: int, width: int, cells: int) -> bool {
    &&& count * width == cells
    &&& (if count == 0 { 1 } else { count }) * (if width == 0 { 1 } else { width }) <= isize::MAX
}

/// `Array2::from_shape_vec` with a shape of rows and columns: the matrix whose
/// rows are the consecutive runs of `cols` cells. It fails where the number of
/// cells is not that of the shape, and where the lengths of the axes that are
/// not zero multiply to more than `isize::MAX`.
#[verifier::external_body]
fn build(rows: usize, cols: usize, cells: Vec<u32>) -> (made: Option<SampleMatrix>)
    ensures
        made is Some <==> shape_holds(rows as int, cols as int, cells@.len() as int),
        made matches Some(m) ==> matrix_width(m) == cols && matrix_rows(m) == rows_of(
            cells@,
            rows as int,
            cols as int,
        ),
{
    match Array2::from_shape_vec((rows, cols), cells) {
        Ok(cells) => Some(SampleMatrix { cells }),
        Err(_) => None,
    }
}

/// `ArrayBase::nrows`: the length of the first axis.
#[verifier::external_body]
fn row_count(m: &SampleMatrix) -> (n: usize)
    ensures
        n == matrix_rows(*m).len(),
{
    m.cells.nrows()
}

/// `ArrayBase::ncols`: the length of the second axis, which is the length of
/// every row.
#[verifier::external_body]
fn column_count(m: &SampleMatrix) -> (n: usize)
    ensures
        n == matrix_width(*m),
        all_of_width(matrix_rows(*m), n as int),
{
    m.cells.ncols()
}

/// `ArrayBase::row`, copied out with `to_vec`: the cells of row `index`. The
/// call panics on an index that is no row's, so those are left out.
#[verifier::external_body]
fn row_values(m: &SampleMatrix, index: usize) -> (cells: Vec<u32>)
    requires
        index < matrix_rows(*m).len(),
    ensures
        cells@ == matrix_rows(*m)[index as int],
{
    m.cells.row(index).to_vec()
}

/// `ArrayBase::sum_axis` along the first axis, copied out with `to_vec`: the
/// sum of each column. The additions are those of `u32`, so a matrix with a
/// column whose sum does not fit is left out.
#[verifier::external_body]
fn column_sums(m: &SampleMatrix) -> (sums: Vec<u32>)
    requires
        forall|j: int|
            0 <= j < matrix_width(*m) ==> #[trigger] column_sum(matrix_rows(*m), j) <= u32::MAX,
    ensures
        sums@.len() == matrix_width(*m),
        forall|j: int| 0 <= j < sums@.len() ==> #[trigger] sums@[j] == column_sum(matrix_rows(*m), j),
{
    m.cells.sum_axis(Axis(0)).to_vec()
}

/// Row `i` of `count` rows of `width` cells begins and ends among their cells.
proof fn lemma_row_within(i: int, count: int, width: int)
    requires
        0 <= i < count,
        0 <= width,
    ensures
        0 <= i * width,
        i * width + width <= count * width,
{
    assert(0 <= i * width && i * width + width <= count * width) by (nonlinear_arith)
        requires
            0 <= i < count,
            0 <= width,
    ;
}

/// Rows of one width, laid out row after row and cut into rows of that width
/// again, are the same rows.
pub proof fn lemma_rows_of_flatten(rows: Seq<Seq<u32>>, width: int)
    requires
        all_of_width(rows, width),
        width >= 0,
    ensures
        flatten(rows).len() == rows.len() * width,
        rows_of(flatten(rows), rows.len() as int, width) == rows,
    decreases rows.len(),
{
    let count = rows.len() as int;
    if count == 0 {
        assert(0 * width == 0) by (nonlinear_arith);
        assert(rows_of(flatten(rows), 0, width) =~= rows);
    } else {
        let shorter = rows.drop_last();
        lemma_rows_of_flatten(shorter, width);
        assert((count - 1) * width + width == count * width) by (nonlinear_arith);
        let cells = flatten(rows);
        assert(cells == flatten(shorter) + rows.last());
        assert forall|i: int| 0 <= i < count implies #[trigger] rows_of(cells, count, width)[i]
            == rows[i] by {
            if i < count - 1 {
                lemma_row_within(i, count - 1, width);
                assert(cells.subrange(i * width, i * width + width) =~= flatten(shorter).subrange(
                    i * width,
                    i * width + width,
                ));
                assert(rows_of(flatten(shorter), count - 1, width)[i] == shorter[i]);
            } else {
                assert(cells.subrange(i * width, i * width + width) =~= rows.last());
            }
        }
        assert(rows_of(cells, count, width) =~= rows);
    }
}

/// In rows of cells that are 0 or 1, no column sums to more than there are
/// rows.
pub proof fn lemma_binary_column_sum(rows: Seq<Seq<u32>>, width: int, j: int)
    requires
        all_binary(rows),
        all_of_width(rows, width),
        0 <= j < width,
    ensures
        0 <= column_sum(rows, j) <= rows.len(),
    decreases rows.len(),
{
    if rows.len() > 0 {
        let shorter = rows.drop_last();
        assert forall|i: int| 0 <= i < shorter.len() implies (#[trigger] shorter[i]).len()
            == width by {
            assert(shorter[i] == rows[i]);
        }
        assert forall|i: int, k: int|
            0 <= i < shorter.len() && 0 <= k < shorter[i].len() implies #[trigger] shorter[i][k]
            <= 1 by {
            assert(shorter[i] == rows[i]);
            assert(rows[i][k] <= 1);
        }
        lemma_binary_column_sum(shorter, width, j);
        assert(rows.last().len() == width);
        assert(rows[rows.len() - 1][j] <= 1);
    }
}

/// A matrix is seen as its rows.
impl View for SampleMatrix {
    type V = Seq<Seq<u32>>;

    open spec fn view(&self) -> Seq<Seq<u32>> {
        matrix_rows(*self)
    }
}

impl SampleMatrix {
    /// The number of columns, also of a matrix without rows.
    pub open spec fn width(&self) -> nat {
        matrix_width(*self)
    }

    /// The matrix with the given cells, `cols` to a row. `None` where `cells`
    /// does not hold `rows` times `cols` cells, or where the machine cannot
    /// hold a matrix of that shape.
    pub fn from_cells(rows: usize, cols: usize, cells: Vec<u32>) -> (made: Option<SampleMatrix>)
        ensures
            made is Some <==> shape_holds(rows as int, cols as int, cells@.len() as int),
            made matches Some(m) ==> {
                &&& m.width() == cols
                &&& m@ == rows_of(cells@, rows as int, cols as int)
                &&& all_of_width(m@, cols as int)
            },
    {
        let made = build(rows, cols, cells);
        proof {
            if made is Some {
                let m = made->0;
                assert forall|i: int| 0 <= i < m@.len() implies (#[trigger] m@[i]).len() == cols by {
                    lemma_row_within(i, rows as int, cols as int);
                }
            }
        }
        made
    }

    /// Whether the machine can hold a matrix of `rows` rows and `cols`
    /// columns.
    pub fn shape_fits(rows: usize, cols: usize) -> (fits: bool)
        ensures
            fits == shape_holds(rows as int, cols as int, rows * cols),
    {
        let longer = if rows == 0 {
            1
        } else {
            rows
        };
        let wider = if cols == 0 {
            1
        } else {
            cols
        };
        match longer.checked_mul(wider) {
            Some(places) => places <= isize::MAX as usize,
            None => false,
        }
    }

    /// The matrix with the given rows. `None` where the rows differ in length,
    /// or where the machine cannot hold a matrix of that shape.
    pub fn from_rows(rows: &Vec<Vec<u32>>) -> (made: Option<SampleMatrix>)
        ensures
            made is Some <==> {
                let width = first_width(rows_view(rows@));
                all_of_width(rows_view(rows@), width) && shape_holds(
                    rows@.len() as int,
                    width,
                    rows@.len() * width,
                )
            },
            made matches Some(m) ==> m@ == rows_view(rows@) && m.width() == first_width(
                rows_view(rows@),
            ),
    {
        let ghost given = rows_view(rows@);
        let count = rows.len();
        let width = if count == 0 {
            0
        } else {
            rows[0].len()
        };
        let mut cells: Vec<u32> = Vec::new();
        let mut i: usize = 0;
        while i < count
            invariant
                i <= count,
                count == rows@.len(),
                given == rows_view(rows@),
                width == first_width(given),
                all_of_width(given.take(i as int), width as int),
                cells@ == flatten(given.take(i as int)),
            decreases count - i,
        {
            if rows[i].len() != width {
                assert(given[i as int].len() != width);
                return None;
            }
            let ghost before = cells@;
            let mut j: usize = 0;
            while j < width
                invariant
                    j <= width,
                    i < rows@.len(),
                    rows@[i as int]@.len() == width,
                    cells@ == before + rows@[i as int]@.take(j as int),
                decreases width - j,
            {
                cells.push(rows[i][j]);
                proof {
                    assert(rows@[i as int]@.take(j + 1) =~= rows@[i as int]@.take(j as int).push(
                        rows@[i as int]@[j as int],
                    ));
                }
                j += 1;
            }
            proof {
                assert(rows@[i as int]@.take(width as int) =~= given[i as int]);
                assert(given.take(i + 1).drop_last() =~= given.take(i as int));
                assert(given.take(i + 1).last() == given[i as int]);
            }
            i += 1;
        }
        proof {
            assert(given.take(count as int) =~= given);
            lemma_rows_of_flatten(given, width as int);
        }
        Self::from_cells(count, width, cells)
    }

    /// The number of rows.
    pub fn nrows(&self) -> (n: usize)
        ensures
            n == self@.len(),
    {
        row_count(self)
    }

    /// The number of columns, which is the length of every row.
    pub fn ncols(&self) -> (n: usize)
        ensures
            n == self.width(),
            all_of_width(self@, n as int),
    {
        column_count(self)
    }

    /// The cells of row `index`, or `None` where there is no such row.
    pub fn row(&self, index: usize) -> (cells: Option<Vec<u32>>)
        ensures
            cells is None <==> index >= self@.len(),
            cells matches Some(row) ==> row@ == self@[index as int],
    {
        if index < row_count(self) {
            Some(row_values(self, index))
        } else {
            None
        }
    }

    /// Whether every cell is 0 or 1.
    pub fn is_binary(&self) -> (binary: bool)
        ensures
            binary == all_binary(self@),
    {
        let count = row_count(self);
        let mut i: usize = 0;
        while i < count
            invariant
                i <= count,
                count == self@.len(),
                forall|a: int, b: int|
                    0 <= a < i && 0 <= b < self@[a].len() ==> #[trigger] self@[a][b] <= 1,
            decreases count - i,
        {
            let row = row_values(self, i);
            let mut j: usize = 0;
            while j < row.len()
                invariant
                    j <= row.len(),
                    i < self@.len(),
                    row@ == self@[i as int],
                    forall|b: int| 0 <= b < j ==> #[trigger] row@[b] <= 1,
                decreases row.len() - j,
            {
                if row[j] > 1 {
                    assert(self@[i as int][j as int] > 1);
                    return false;
                }
                j += 1;
            }
            assert forall|a: int, b: int|
                0 <= a < i + 1 && 0 <= b < self@[a].len() implies #[trigger] self@[a][b] <= 1 by {
                if a == i {
                    assert(row@[b] <= 1);
                }
            }
            i += 1;
        }
        true
    }

    /// The sum of each column, for a matrix of cells that are 0 or 1 with no
    /// more rows than a `u32` counts.
    pub fn column_counts(&self) -> (sums: Vec<u32>)
        requires
            all_binary(self@),
            self@.len() <= u32::MAX,
        ensures
            sums@.len() == self.width(),
            forall|j: int| 0 <= j < sums@.len() ==> #[trigger] sums@[j] == column_sum(self@, j),
            forall|j: int| 0 <= j < sums@.len() ==> #[trigger] sums@[j] <= self@.len(),
    {
        let width = column_count(self);
        proof {
            assert forall|j: int| 0 <= j < matrix_width(*self) implies #[trigger] column_sum(
                matrix_rows(*self),
                j,
            ) <= u32::MAX by {
                lemma_binary_column_sum(self@, width as int, j);
            }
        }
        let sums = column_sums(self);
        proof {
            assert forall|j: int| 0 <= j < sums@.len() implies #[trigger] sums@[j] <= self@.len() by {
                lemma_binary_column_sum(self@, width as int, j);
            }
        }
        sums
    }
}

} // verus!
