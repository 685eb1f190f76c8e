//! Two-dimensional grids of tiles and of flags, stored in `ndarray` arrays.
//!
//! The arrays are held behind opaque structs: what a grid holds is described
//! by its shape (rows, columns) and by a map from `(row, column)` to the value
//! stored there. Every access goes through a small trusted wrapper around the
//! corresponding `ndarray` call.
use vstd::prelude::*;
use ndarray::Array2;

verus! {

/// A grid of tile codes (`u8`), indexed by `(row, column)`.
#[verifier::external_body]
pub struct ByteGrid {
    inner: Array2<u8>,
}

/// A grid of flags, indexed by `(row, column)`.
#[verifier::external_body]
pub struct BoolGrid {
    inner: Array2<bool>,
}

/// The number of rows and columns of the array inside a `ByteGrid`.
pub uninterp spec fn byte_grid_shape(g: ByteGrid) -> (nat, nat);

/// The element stored at each `(row, column)` of the array inside a `ByteGrid`.
pub uninterp spec fn byte_grid_cells(g: ByteGrid) -> Map<(int, int), u8>;

/// The number of rows and columns of the array inside a `BoolGrid`.
pub uninterp spec fn bool_grid_shape(g: BoolGrid) -> (nat, nat);

/// The element stored at each `(row, column)` of the array inside a `BoolGrid`.
pub uninterp spec fn bool_grid_cells(g: BoolGrid) -> Map<(int, int), bool>;

/// Whether an array of `rows` by `cols` elements can be allocated by `ndarray`:
/// the product of the non-zero axis lengths must fit in `isize`.
pub open spec fn shape_fits(rows: int, cols: int) -> bool {
    if rows == 0 {
        cols <= isize::MAX
    } else if cols == 0 {
        rows <= isize::MAX
    } else {
        rows * cols <= isize::MAX
    }
}

impl ByteGrid {
    pub open spec fn rows(self) -> nat {
        byte_grid_shape(self).0
    }

    pub open spec fn cols(self) -> nat {
        byte_grid_shape(self).1
    }

    pub open spec fn in_bounds(self, y: int, x: int) -> bool {
        0 <= y < self.rows() && 0 <= x < self.cols()
    }

    pub open spec fn at(self, y: int, x: int) -> u8 {
        byte_grid_cells(self)[(y, x)]
    }

    /// Two grids have the same shape and the same element in every cell.
    pub open spec fn same_as(self, other: ByteGrid) -> bool {
        &&& self.rows() == other.rows()
        &&& self.cols() == other.cols()
        &&& forall|y: int, x: int| self.in_bounds(y, x) ==> #[trigger] self.at(y, x) == other.at(y, x)
    }

    /// `ndarray::Array2::from_elem((rows, cols), value)`: a `rows` by `cols`
    /// array with `value` in every cell. It panics when the element count
    /// overflows `isize`, which `requires` rules out.
    #[verifier::external_body]
    fn array_from_elem(rows: usize, cols: usize, value: u8) -> (g: ByteGrid)
        requires
            shape_fits(rows as int, cols as int),
        ensures
            byte_grid_shape(g) == (rows as nat, cols as nat),
            forall|y: int, x: int| 0 <= y < rows && 0 <= x < cols ==> #[trigger] byte_grid_cells(g)[(y, x)] == value,
    {
        ByteGrid { inner: Array2::from_elem((rows, cols), value) }
    }

    /// `Array2::nrows`: the number of rows. An `ndarray` array never holds
    /// more elements than `isize` can count, so its shape fits.
    #[verifier::external_body]
    fn array_nrows(&self) -> (n: usize)
        ensures
            n == byte_grid_shape(*self).0,
            shape_fits(n as int, byte_grid_shape(*self).1 as int),
    {
        self.inner.nrows()
    }

    /// `Array2::ncols`: the number of columns. An `ndarray` array never holds
    /// more elements than `isize` can count, so its shape fits.
    #[verifier::external_body]
    fn array_ncols(&self) -> (n: usize)
        ensures
            n == byte_grid_shape(*self).1,
            shape_fits(byte_grid_shape(*self).0 as int, n as int),
    {
        self.inner.ncols()
    }

    /// Indexing `array[[y, x]]`: the element at row `y`, column `x`. It panics
    /// out of bounds, which `requires` rules out.
    #[verifier::external_body]
    fn array_index(&self, y: usize, x: usize) -> (v: u8)
        requires
            self.in_bounds(y as int, x as int),
        ensures
            v == byte_grid_cells(*self)[(y as int, x as int)],
    {
        self.inner[[y, x]]
    }

    /// Assignment `array[[y, x]] = value`: only that cell changes, the shape
    /// stays. It panics out of bounds, which `requires` rules out.
    #[verifier::external_body]
    fn array_index_set(&mut self, y: usize, x: usize, value: u8)
        requires
            old(self).in_bounds(y as int, x as int),
        ensures
            byte_grid_shape(*final(self)) == byte_grid_shape(*old(self)),
            byte_grid_cells(*final(self)) == byte_grid_cells(*old(self)).insert((y as int, x as int), value),
    {
        self.inner[[y, x]] = value;
    }

    /// `Array2::clone`: an array of the same shape and elements.
    #[verifier::external_body]
    fn array_clone(&self) -> (g: ByteGrid)
        ensures
            byte_grid_shape(g) == byte_grid_shape(*self),
            byte_grid_cells(g) == byte_grid_cells(*self),
    {
        ByteGrid { inner: self.inner.clone() }
    }

    /// A `rows` by `cols` grid with `value` in every cell.
    pub fn filled(rows: usize, cols: usize, value: u8) -> (g: ByteGrid)
        requires
            shape_fits(rows as int, cols as int),
        ensures
            g.rows() == rows,
            g.cols() == cols,
            forall|y: int, x: int| g.in_bounds(y, x) ==> #[trigger] g.at(y, x) == value,
    {
        Self::array_from_elem(rows, cols, value)
    }

    /// The number of rows.
    pub fn nrows(&self) -> (n: usize)
        ensures
            n == self.rows(),
            shape_fits(self.rows() as int, self.cols() as int),
    {
        self.array_nrows()
    }

    /// The number of columns.
    pub fn ncols(&self) -> (n: usize)
        ensures
            n == self.cols(),
            shape_fits(self.rows() as int, self.cols() as int),
    {
        self.array_ncols()
    }

    /// The element at row `y`, column `x`.
    pub fn get(&self, y: usize, x: usize) -> (v: u8)
        requires
            self.in_bounds(y as int, x as int),
        ensures
            v == self.at(y as int, x as int),
    {
        self.array_index(y, x)
    }

    /// Stores `value` at row `y`, column `x`; every other cell keeps its value.
    pub fn set(&mut self, y: usize, x: usize, value: u8)
        requires
            old(self).in_bounds(y as int, x as int),
        ensures
            final(self).rows() == old(self).rows(),
            final(self).cols() == old(self).cols(),
            final(self).at(y as int, x as int) == value,
            forall|yy: int, xx: int| (yy, xx) != (y as int, x as int) ==>
                #[trigger] final(self).at(yy, xx) == old(self).at(yy, xx),
    {
        self.array_index_set(y, x, value);
    }

    /// A copy with the same shape and elements.
    pub fn copy(&self) -> (g: ByteGrid)
        ensures
            g.same_as(*self),
    {
        self.array_clone()
    }

    /// `Array2::from_shape_vec((rows, cols), v)`: the elements of `v` in
    /// row-major order. It fails when `v` does not hold exactly `rows * cols`
    /// elements or when the shape overflows `isize`; the error becomes `None`.
    #[verifier::external_body]
    fn array_from_shape_vec(rows: usize, cols: usize, v: Vec<u8>) -> (r: Option<ByteGrid>)
        ensures
            r is Some <==> (v@.len() == rows * cols && shape_fits(rows as int, cols as int)),
            r matches Some(g) ==> byte_grid_shape(g) == (rows as nat, cols as nat),
            r matches Some(g) ==> forall|y: int, x: int|
                0 <= y < rows && 0 <= x < cols ==> #[trigger] byte_grid_cells(g)[(y, x)] == v@[y * cols + x],
    {
        Array2::from_shape_vec((rows, cols), v).ok().map(|inner| ByteGrid { inner })
    }

    /// The `rows` by `cols` grid holding the elements of `v` in row-major
    /// order; `None` unless `v` holds exactly `rows * cols` elements and the
    /// shape fits.
    pub fn from_row_major(rows: usize, cols: usize, v: Vec<u8>) -> (r: Option<ByteGrid>)
        ensures
            r is Some <==> (v@.len() == rows * cols && shape_fits(rows as int, cols as int)),
            r matches Some(g) ==> g.rows() == rows && g.cols() == cols,
            r matches Some(g) ==> forall|y: int, x: int|
                0 <= y < rows && 0 <= x < cols ==> #[trigger] g.at(y, x) == v@[y * cols + x],
    {
        Self::array_from_shape_vec(rows, cols, v)
    }
}

impl BoolGrid {
    pub open spec fn rows(self) -> nat {
        bool_grid_shape(self).0
    }

    pub open spec fn cols(self) -> nat {
        bool_grid_shape(self).1
    }

    pub open spec fn in_bounds(self, y: int, x: int) -> bool {
        0 <= y < self.rows() && 0 <= x < self.cols()
    }

    pub open spec fn at(self, y: int, x: int) -> bool {
        bool_grid_cells(self)[(y, x)]
    }

    /// `ndarray::Array2::from_elem((rows, cols), value)`: a `rows` by `cols`
    /// array with `value` in every cell. It panics when the element count
    /// overflows `isize`, which `requires` rules out.
    #[verifier::external_body]
    fn array_from_elem(rows: usize, cols: usize, value: bool) -> (g: BoolGrid)
        requires
            shape_fits(rows as int, cols as int),
        ensures
            bool_grid_shape(g) == (rows as nat, cols as nat),
            forall|y: int, x: int| 0 <= y < rows && 0 <= x < cols ==> #[trigger] bool_grid_cells(g)[(y, x)] == value,
    {
        BoolGrid { inner: Array2::from_elem((rows, cols), value) }
    }

    /// `Array2::nrows`: the number of rows. An `ndarray` array never holds
    /// more elements than `isize` can count, so its shape fits.
    #[verifier::external_body]
    fn array_nrows(&self) -> (n: usize)
        ensures
            n == bool_grid_shape(*self).0,
            shape_fits(n as int, bool_grid_shape(*self).1 as int),
    {
        self.inner.nrows()
    }

    /// `Array2::ncols`: the number of columns. An `ndarray` array never holds
    /// more elements than `isize` can count, so its shape fits.
    #[verifier::external_body]
    fn array_ncols(&self) -> (n: usize)
        ensures
            n == bool_grid_shape(*self).1,
            shape_fits(bool_grid_shape(*self).0 as int, n as int),
    {
        self.inner.ncols()
    }

    /// Indexing `array[[y, x]]`: the element at row `y`, column `x`. It panics
    /// out of bounds, which `requires` rules out.
    #[verifier::external_body]
    fn array_index(&self, y: usize, x: usize) -> (v: bool)
        requires
            self.in_bounds(y as int, x as int),
        ensures
            v == bool_grid_cells(*self)[(y as int, x as int)],
    {
        self.inner[[y, x]]
    }

    /// Assignment `array[[y, x]] = value`: only that cell changes, the shape
    /// stays. It panics out of bounds, which `requires` rules out.
    #[verifier::external_body]
    fn array_index_set(&mut self, y: usize, x: usize, value: bool)
        requires
            old(self).in_bounds(y as int, x as int),
        ensures
            bool_grid_shape(*final(self)) == bool_grid_shape(*old(self)),
            bool_grid_cells(*final(self)) == bool_grid_cells(*old(self)).insert((y as int, x as int), value),
    {
        self.inner[[y, x]] = value;
    }

    /// A `rows` by `cols` grid with `value` in every cell.
    pub fn filled(rows: usize, cols: usize, value: bool) -> (g: BoolGrid)
        requires
            shape_fits(rows as int, cols as int),
        ensures
            g.rows() == rows,
            g.cols() == cols,
            forall|y: int, x: int| g.in_bounds(y, x) ==> #[trigger] g.at(y, x) == value,
    {
        Self::array_from_elem(rows, cols, value)
    }

    /// The number of rows.
    pub fn nrows(&self) -> (n: usize)
        ensures
            n == self.rows(),
            shape_fits(self.rows() as int, self.cols() as int),
    {
        self.array_nrows()
    }

    /// The number of columns.
    pub fn ncols(&self) -> (n: usize)
        ensures
            n == self.cols(),
            shape_fits(self.rows() as int, self.cols() as int),
    {
        self.array_ncols()
    }

    /// The flag at row `y`, column `x`.
    pub fn get(&self, y: usize, x: usize) -> (v: bool)
        requires
            self.in_bounds(y as int, x as int),
        ensures
            v == self.at(y as int, x as int),
    {
        self.array_index(y, x)
    }

    /// Stores `value` at row `y`, column `x`; every other cell keeps its value.
    pub fn set(&mut self, y: usize, x: usize, value: bool)
        requires
            old(self).in_bounds(y as int, x as int),
        ensures
            final(self).rows() == old(self).rows(),
            final(self).cols() == old(self).cols(),
            final(self).at(y as int, x as int) == value,
            forall|yy: int, xx: int| (yy, xx) != (y as int, x as int) ==>
                #[trigger] final(self).at(yy, xx) == old(self).at(yy, xx),
    {
        self.array_index_set(y, x, value);
    }
}

} // verus!
