//! Two-dimensional grids used by the distance transform.
//!
//! A grid is a dense rectangular array of cells, addressed by coordinates
//! `(x, y)` with `x` the fast-varying (column) index; the backing vector
//! stores the cell `(x, y)` at index `y * width + x`.

use vstd::prelude::*;

verus! {

/// A two-dimensional grid of an arbitrary type `T`.
pub struct GenericGrid<T> {
    pub data: Vec<T>,
    pub width: usize,
    pub height: usize,
}

/// Two-dimensional grid of `bool` values; `true` marks a feature cell.
pub type BoolGrid = GenericGrid<bool>;

/// Two-dimensional grid of `u64` values, used for costs and squared distances.
pub type DistGrid = GenericGrid<u64>;

impl<T> View for GenericGrid<T> {
    type V = Seq<T>;

    open spec fn view(&self) -> Seq<T> {
        self.data@
    }
}

impl<T> GenericGrid<T> {
    /// The backing vector holds exactly one cell per coordinate pair.
    pub open spec fn wf(self) -> bool {
        self.data@.len() == self.width * self.height
    }

    pub open spec fn spec_width(self) -> usize {
        self.width
    }

    pub open spec fn spec_height(self) -> usize {
        self.height
    }

    /// The cell at position `(x, y)`.
    pub open spec fn cell(self, x: int, y: int) -> T {
        self.data@[y * self.width + x]
    }

    /// A well-formed grid never holds more cells than `usize` can count.
    pub proof fn lemma_size_bound(&self)
        requires
            self.wf(),
        ensures
            self.spec_width() * self.spec_height() <= usize::MAX,
    {
        broadcast use vstd::std_specs::vec::axiom_spec_len;

        assert(vstd::std_specs::vec::spec_vec_len(&self.data) == self.data@.len());
    }

    /// Returns the height of the grid.
    pub fn height(&self) -> (h: usize)
        ensures
            h == self.spec_height(),
    {
        self.height
    }

    /// Returns the width of the grid.
    pub fn width(&self) -> (w: usize)
        ensures
            w == self.spec_width(),
    {
        self.width
    }

    /// Returns the element at position `(x, y)`, or `None` if the position
    /// is out of bounds.
    pub fn get(&self, x: usize, y: usize) -> (r: Option<&T>)
        requires
            self.wf(),
        ensures
            (match r {
                Option::Some(v) => {
                    &&& x < self.spec_width()
                    &&& y < self.spec_height()
                    &&& *v == self.cell(x as int, y as int)
                },
                Option::None => x >= self.spec_width() || y >= self.spec_height(),
            }),
    {
        if x >= self.width || y >= self.height {
            return None;
        }
        Some(self.get_unchecked(x, y))
    }

    /// Returns a reference to the element at position `(x, y)`; the position
    /// must be in bounds.
    pub fn get_unchecked(&self, x: usize, y: usize) -> (r: &T)
        requires
            self.wf(),
            x < self.spec_width(),
            y < self.spec_height(),
        ensures
            *r == self.cell(x as int, y as int),
    {
        proof {
            self.lemma_size_bound();
            lemma_grid_index_bound(
                self.width as int,
                self.height as int,
                x as int,
                y as int,
            );
        }
        &self.data[y * self.width + x]
    }

    /// Sets the value of the grid at position `(x, y)`; the position must be
    /// in bounds.
    pub fn set(&mut self, x: usize, y: usize, value: T)
        requires
            old(self).wf(),
            x < old(self).spec_width(),
            y < old(self).spec_height(),
        ensures
            final(self).wf(),
            final(self).spec_width() == old(self).spec_width(),
            final(self).spec_height() == old(self).spec_height(),
            final(self)@ == old(self)@.update(
                y * old(self).spec_width() + x,
                value,
            ),
    {
        proof {
            self.lemma_size_bound();
            lemma_grid_index_bound(
                self.width as int,
                self.height as int,
                x as int,
                y as int,
            );
        }
        let i = y * self.width + x;
        self.data[i] = value;
    }

    /// Moves the cells out of the grid as a `Vec<T>` with indexing
    /// `grid[x, y] == vec[y * grid.width + x]`.
    pub fn to_vec(self) -> (r: Vec<T>)
        ensures
            r@ == self@,
    {
        self.data
    }

    /// Returns an iterator over the cells of the grid.  An item of the
    /// iterator holds the position and a reference to the cell:
    /// `(x, y, value)`.
    pub fn iter<'a>(&'a self) -> (it: GridIter<'a, T>)
        requires
            self.wf(),
        ensures
            it.spec_grid() == *self,
            it.spec_pos() == 0,
    {
        GridIter { grid: self, pos: 0 }
    }
}

impl<T: Default + Copy> GenericGrid<T> {
    /// Constructs a new two-dimensional `GenericGrid<T>` of size
    /// `width` x `height`, every cell holding the default value of `T`.
    pub fn new(width: usize, height: usize) -> (g: GenericGrid<T>)
        requires
            width * height <= usize::MAX,
        ensures
            g.wf(),
            g.spec_width() == width,
            g.spec_height() == height,
            forall|i: int|
                0 <= i < g@.len() ==> call_ensures(T::default, (), #[trigger] g@[i]),
            forall|i: int, j: int|
                0 <= i < g@.len() && 0 <= j < g@.len() ==> g@[i] == g@[j],
    {
        let value = T::default();
        proof {
            assert(height * width == width * height) by (nonlinear_arith);
        }
        let n = height * width;
        let mut data: Vec<T> = Vec::new();
        let mut i: usize = 0;
        while i < n
            invariant
                i <= n,
                data@.len() == i,
                forall|k: int| 0 <= k < i ==> data@[k] == value,
            decreases n - i,
        {
            data.push(value);
            i += 1;
        }
        GenericGrid { data, width, height }
    }
}

/// In-bounds coordinates address an in-bounds cell of the backing vector,
/// and distinct coordinates address distinct cells.
pub proof fn lemma_grid_index_bound(w: int, h: int, x: int, y: int)
    requires
        0 <= x < w,
        0 <= y < h,
    ensures
        0 <= y * w + x < w * h,
{
    assert(0 <= y * w + x < w * h) by (nonlinear_arith)
        requires
            0 <= x < w,
            0 <= y < h,
    ;
}

/// The cell addresses of two coordinate pairs agree exactly when the
/// coordinates agree.
pub proof fn lemma_grid_index_injective(w: int, x1: int, y1: int, x2: int, y2: int)
    requires
        0 <= x1 < w,
        0 <= x2 < w,
        0 <= y1,
        0 <= y2,
    ensures
        (y1 * w + x1 == y2 * w + x2) <==> (x1 == x2 && y1 == y2),
{
    assert((y1 * w + x1 == y2 * w + x2) <==> (x1 == x2 && y1 == y2)) by (nonlinear_arith)
        requires
            0 <= x1 < w,
            0 <= x2 < w,
            0 <= y1,
            0 <= y2,
    ;
}

/// Iterate over the cells of a grid, row by row.
pub struct GridIter<'a, T> {
    pub grid: &'a GenericGrid<T>,
    pub pos: usize,
}

impl<'a, T> GridIter<'a, T> {
    pub open spec fn spec_grid(self) -> GenericGrid<T> {
        *self.grid
    }

    pub open spec fn spec_pos(self) -> usize {
        self.pos
    }

    /// Returns the next cell together with its position, or `None` once
    /// every cell has been handed out.
    pub fn next(&mut self) -> (r: Option<(usize, usize, &'a T)>)
        requires
            old(self).spec_grid().wf(),
        ensures
            final(self).spec_grid() == old(self).spec_grid(),
            (match r {
                Option::Some((x, y, v)) => {
                    &&& old(self).spec_pos() < old(self).spec_grid()@.len()
                    &&& final(self).spec_pos() == old(self).spec_pos() + 1
                    &&& x == old(self).spec_pos() as int % old(
                        self,
                    ).spec_grid().spec_width() as int
                    &&& y == old(self).spec_pos() as int / old(
                        self,
                    ).spec_grid().spec_width() as int
                    &&& *v == old(self).spec_grid()@[old(self).spec_pos() as int]
                },
                Option::None => {
                    &&& old(self).spec_pos() >= old(self).spec_grid()@.len()
                    &&& final(self).spec_pos() == old(self).spec_pos()
                },
            }),
    {
        if self.pos >= self.grid.data.len() {
            return None;
        }
        proof {
            assert(self.grid.width * self.grid.height > 0);
            assert(self.grid.width > 0) by (nonlinear_arith)
                requires
                    self.grid.width * self.grid.height > 0,
            ;
        }
        let x = self.pos % self.grid.width;
        let y = self.pos / self.grid.width;
        let v = &self.grid.data[self.pos];
        self.pos = self.pos + 1;
        Some((x, y, v))
    }
}

} // verus!
