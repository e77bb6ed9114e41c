//! Symbol matrices and their columns, stored as `ndarray` arrays.
//!
//! Everything in this file that touches `ndarray` is trusted: the two structs
//! hide their array from the verifier, three uninterpreted functions name
//! what the arrays hold, and each function whose name starts with `array_`
//! or `view_` states what one `ndarray` call does to those contents. The
//! methods of [`Matrix`] and [`Column`] are verified against these.
use vstd::prelude::*;

verus! {

/// A two-dimensional array of symbol codes, rows by columns.
///
/// Trusted: the struct hides an `ndarray::Array2<u32>` from the verifier.
#[verifier::external_body]
pub struct Matrix {
    cells: ndarray::Array2<u32>,
}

/// A borrowed view of one column of a [`Matrix`].
///
/// Trusted: the struct hides an `ndarray::ArrayView1<u32>` from the verifier.
#[verifier::external_body]
pub struct Column<'a> {
    cells: ndarray::ArrayView1<'a, u32>,
}

/// The rows of a matrix, top to bottom, each row left to right.
pub uninterp spec fn matrix_rows(m: &Matrix) -> Seq<Seq<u32>>;

/// The number of columns of a matrix (a matrix without rows still has one).
pub uninterp spec fn matrix_width(m: &Matrix) -> nat;

/// The cells of a column view, top to bottom.
pub uninterp spec fn column_cells(c: &Column) -> Seq<u32>;

/// Every row has exactly `width` cells.
pub open spec fn is_grid(rows: Seq<Seq<u32>>, width: nat) -> bool {
    forall|r: int| 0 <= r < rows.len() ==> (#[trigger] rows[r]).len() == width
}

/// Column `c` of a grid, top to bottom.
pub open spec fn grid_column(rows: Seq<Seq<u32>>, c: int) -> Seq<u32> {
    Seq::new(rows.len(), |r: int| rows[r][c])
}

/// Whether a vector of `len` cells can be laid out as `nrows` by `ncols`.
pub open spec fn shape_fits(nrows: usize, ncols: usize, len: nat) -> bool {
    nrows * ncols == len && nrows <= isize::MAX && ncols <= isize::MAX
}

/// `rows` is the `nrows` by `ncols` grid that holds `cells` row by row.
pub open spec fn is_row_major(rows: Seq<Seq<u32>>, nrows: nat, ncols: nat, cells: Seq<u32>) -> bool {
    &&& rows.len() == nrows
    &&& is_grid(rows, ncols)
    &&& forall|r: int, c: int|
        0 <= r < nrows && 0 <= c < ncols ==> (#[trigger] rows[r][c]) == cells[r * ncols + c]
}

/// `ndarray::Array2::from_shape_vec` with a `(nrows, ncols)` shape in the
/// default row-major order. It succeeds exactly when the element count
/// matches and neither axis length exceeds `isize::MAX`; the matrix then
/// holds `cells` row by row.
#[verifier::external_body]
fn array_from_shape_vec(nrows: usize, ncols: usize, cells: Vec<u32>) -> (res: Option<Matrix>)
    ensures
        (res is Some) == shape_fits(nrows, ncols, cells@.len()),
        res is Some ==> matrix_width(&res->Some_0) == ncols,
        res is Some ==> is_row_major(matrix_rows(&res->Some_0), nrows as nat, ncols as nat, cells@),
{
    match ndarray::Array2::from_shape_vec((nrows, ncols), cells) {
        Ok(a) => Some(Matrix { cells: a }),
        Err(_) => None,
    }
}

/// `ndarray::ArrayBase::nrows`: the length of the first axis.
#[verifier::external_body]
pub(crate) fn array_nrows(m: &Matrix) -> (n: usize)
    ensures
        n == matrix_rows(m).len(),
{
    m.cells.nrows()
}

/// `ndarray::ArrayBase::ncols`: the length of the second axis, which is
/// also the length of every row.
#[verifier::external_body]
pub(crate) fn array_ncols(m: &Matrix) -> (n: usize)
    ensures
        n == matrix_width(m),
        is_grid(matrix_rows(m), n as nat),
{
    m.cells.ncols()
}

/// Indexing an `ndarray::Array2` with `[[r, c]]`, which reads the cell in
/// row `r` and column `c` and panics outside the shape.
#[verifier::external_body]
pub(crate) fn array_get(m: &Matrix, r: usize, c: usize) -> (v: u32)
    requires
        r < matrix_rows(m).len(),
        c < matrix_width(m),
    ensures
        v == matrix_rows(m)[r as int][c as int],
{
    m.cells[[r, c]]
}

/// Assigning through `[[r, c]]` on an `ndarray::Array2`, which overwrites
/// that one cell, keeps the shape and panics outside it.
#[verifier::external_body]
pub(crate) fn array_set(m: &mut Matrix, r: usize, c: usize, v: u32)
    requires
        r < matrix_rows(old(m)).len(),
        c < matrix_width(old(m)),
    ensures
        matrix_width(final(m)) == matrix_width(old(m)),
        matrix_rows(final(m)) == matrix_rows(old(m)).update(
            r as int,
            matrix_rows(old(m))[r as int].update(c as int, v),
        ),
{
    m.cells[[r, c]] = v;
}

/// `ndarray::Array2::from_elem` with the shape that `raw_dim` reports for
/// `m` and the element 0: a matrix of the same shape with 0 in every cell.
/// The shape of an existing array never makes `from_elem` panic.
#[verifier::external_body]
pub(crate) fn array_zeros_like(m: &Matrix) -> (z: Matrix)
    ensures
        matrix_width(&z) == matrix_width(m),
        matrix_rows(&z).len() == matrix_rows(m).len(),
        is_grid(matrix_rows(&z), matrix_width(m)),
        forall|r: int, c: int|
            0 <= r < matrix_rows(&z).len() && 0 <= c < matrix_width(m) ==> (
            #[trigger] matrix_rows(&z)[r][c]) == 0,
{
    Matrix { cells: ndarray::Array2::from_elem(m.cells.raw_dim(), 0) }
}

/// `ndarray::ArrayBase::column`: a view of column `c`, which has one cell
/// per row; it panics when `c` is not a column.
#[verifier::external_body]
pub(crate) fn array_column(m: &Matrix, c: usize) -> (col: Column<'_>)
    requires
        c < matrix_width(m),
    ensures
        column_cells(&col) == grid_column(matrix_rows(m), c as int),
{
    Column { cells: m.cells.column(c) }
}

/// `ndarray::ArrayView1::from` on a slice: a view of the cells of the slice,
/// in their order.
#[verifier::external_body]
fn view_from_slice<'a>(cells: &'a [u32]) -> (col: Column<'a>)
    ensures
        column_cells(&col) == cells@,
{
    Column { cells: ndarray::ArrayView1::from(cells) }
}

/// `ndarray::ArrayBase::len` on a one-dimensional view: its number of cells.
#[verifier::external_body]
fn view_len(col: &Column) -> (n: usize)
    ensures
        n == column_cells(col).len(),
{
    col.cells.len()
}

/// Indexing an `ndarray::ArrayView1` with `[i]`, which reads cell `i` and
/// panics past the end.
#[verifier::external_body]
fn view_get(col: &Column, i: usize) -> (v: u32)
    requires
        i < column_cells(col).len(),
    ensures
        v == column_cells(col)[i as int],
{
    col.cells[i]
}

impl Matrix {
    /// Builds a matrix of `nrows` by `ncols` from its cells in row-major
    /// order. Fails when the number of cells is not `nrows * ncols`, or when
    /// an axis is longer than `isize::MAX`.
    pub fn from_shape_vec(nrows: usize, ncols: usize, cells: Vec<u32>) -> (res: Option<Matrix>)
        ensures
            (res is Some) == shape_fits(nrows, ncols, cells@.len()),
            res is Some ==> matrix_width(&res->Some_0) == ncols,
            res is Some ==> is_row_major(
                matrix_rows(&res->Some_0),
                nrows as nat,
                ncols as nat,
                cells@,
            ),
    {
        array_from_shape_vec(nrows, ncols, cells)
    }

    /// The number of rows.
    pub fn nrows(&self) -> (n: usize)
        ensures
            n == matrix_rows(self).len(),
    {
        array_nrows(self)
    }

    /// The number of columns; every row has that many cells.
    pub fn ncols(&self) -> (n: usize)
        ensures
            n == matrix_width(self),
            is_grid(matrix_rows(self), n as nat),
    {
        array_ncols(self)
    }

    /// The cell in row `r` and column `c`, or `None` outside the matrix.
    pub fn get(&self, r: usize, c: usize) -> (v: Option<u32>)
        ensures
            v == if r < matrix_rows(self).len() && c < matrix_width(self) {
                Some(matrix_rows(self)[r as int][c as int])
            } else {
                None
            },
    {
        if r < array_nrows(self) && c < array_ncols(self) {
            Some(array_get(self, r, c))
        } else {
            None
        }
    }

    /// A view of column `c`, or `None` when the matrix has no such column.
    pub fn column(&self, c: usize) -> (col: Option<Column<'_>>)
        ensures
            col is Some <==> c < matrix_width(self),
            col is Some ==> column_cells(&col->Some_0) == grid_column(
                matrix_rows(self),
                c as int,
            ),
    {
        if c < array_ncols(self) {
            Some(array_column(self, c))
        } else {
            None
        }
    }
}

impl<'a> Column<'a> {
    /// A column that views the cells of a slice, top to bottom.
    pub fn from_slice(cells: &'a [u32]) -> (col: Column<'a>)
        ensures
            column_cells(&col) == cells@,
    {
        view_from_slice(cells)
    }

    /// The number of cells in the column.
    pub fn len(&self) -> (n: usize)
        ensures
            n == column_cells(self).len(),
    {
        view_len(self)
    }

    /// Cell `i` of the column, or `None` past its end.
    pub fn get(&self, i: usize) -> (v: Option<u32>)
        ensures
            v == if i < column_cells(self).len() {
                Some(column_cells(self)[i as int])
            } else {
                None
            },
    {
        if i < view_len(self) {
            Some(view_get(self, i))
        } else {
            None
        }
    }
}

} // verus!
