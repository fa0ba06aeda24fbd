//! One mark for each position of an image.

use vstd::prelude::*;
use crate::grid::lemma_index_of_position;

verus! {

/// A mark for each position of an image, kept row by row: that of column `x`
/// of row `y` stands at `y * width + x`.
pub struct PixelMarks<T: Default + Copy> {
    width: u32,
    marks: Vec<T>,
}

/// Whether `mark` is what a new mark is: a copy of the default value.
pub open spec fn unset<T: Default + Copy>(mark: T) -> bool {
    exists|default: T| call_ensures(T::default, (), default) && cloned(default, mark)
}

impl<T: Default + Copy> PixelMarks<T> {
    /// The number of columns.
    pub closed spec fn columns(&self) -> nat {
        self.width as nat
    }

    /// The marks, row by row.
    pub closed spec fn cells(&self) -> Seq<T> {
        self.marks@
    }

    /// Whether there is a mark for column `x` of row `y`.
    pub open spec fn covers(&self, x: int, y: int) -> bool {
        0 <= x < self.columns() && 0 <= y && y * self.columns() + x < self.cells().len()
    }

    /// The mark of column `x` of row `y`.
    pub open spec fn marked(&self, x: int, y: int) -> T {
        self.cells()[y * self.columns() + x]
    }

    /// There is exactly one mark for each position of a `width * height`
    /// image.
    pub open spec fn fits(&self, width: nat, height: nat) -> bool {
        self.columns() == width && self.cells().len() == width * height
    }

    /// Marks for a `width * height` image, none of them set.
    pub fn new(width: u32, height: u32) -> (made: PixelMarks<T>)
        requires
            width * height <= usize::MAX,
        ensures
            made.fits(width as nat, height as nat),
            forall|i: int| 0 <= i < width * height ==> unset(#[trigger] made.cells()[i]),
    {
        assert((width as usize) * (height as usize) == width * height) by (nonlinear_arith)
            requires
                width * height <= usize::MAX,
        ;
        PixelMarks { width, marks: vec![T::default(); (width as usize) * (height as usize)] }
    }

    /// Where the mark of column `x` of row `y` stands.
    pub fn index(&self, x: u32, y: u32) -> (i: usize)
        requires
            self.covers(x as int, y as int),
        ensures
            i == y * self.columns() + x,
    {
        assert(self.marks@.len() == self.marks.len());
        assert(0 <= y * self.width) by (nonlinear_arith);
        (y as usize) * (self.width as usize) + (x as usize)
    }

    /// The mark of column `x` of row `y`.
    pub fn get(&self, x: u32, y: u32) -> (mark: T)
        requires
            self.covers(x as int, y as int),
        ensures
            mark == self.marked(x as int, y as int),
    {
        let index = self.index(x, y);
        self.marks[index]
    }

    /// Sets the mark of column `x` of row `y` and no other.
    pub fn set(&mut self, x: u32, y: u32, mark: T)
        requires
            old(self).covers(x as int, y as int),
        ensures
            final(self).columns() == old(self).columns(),
            final(self).cells() == old(self).cells().update(y * old(self).columns() + x, mark),
    {
        let index = self.index(x, y);
        self.marks.set(index, mark);
    }
}

impl<T: Default + Copy> Default for PixelMarks<T> {
    /// Marks for an image without pixels.
    fn default() -> (made: PixelMarks<T>)
        ensures
            made.fits(0, 0),
    {
        PixelMarks { width: 0, marks: Vec::new() }
    }
}

/// Where the marks fit an image, each position inside it has its mark, and
/// setting one mark leaves those of the other positions alone.
pub proof fn lemma_marks_by_position<T: Default + Copy>(
    before: PixelMarks<T>,
    after: PixelMarks<T>,
    width: nat,
    height: nat,
    x: int,
    y: int,
    mark: T,
)
    requires
        before.fits(width, height),
        0 <= x < width,
        0 <= y < height,
        after.columns() == before.columns(),
        after.cells() == before.cells().update(y * width + x, mark),
    ensures
        before.covers(x, y),
        after.fits(width, height),
        forall|u: int, v: int|
            0 <= u < width && 0 <= v < height ==> #[trigger] after.marked(u, v) == if u == x && v
                == y {
                mark
            } else {
                before.marked(u, v)
            },
{
    lemma_index_of_position(width, height, x, y);
    assert forall|u: int, v: int| 0 <= u < width && 0 <= v < height implies #[trigger] after.marked(
        u,
        v,
    ) == if u == x && v == y {
        mark
    } else {
        before.marked(u, v)
    } by {
        lemma_index_of_position(width, height, u, v);
    }
}

/// A new mark of type `bool` is `false`.
pub proof fn lemma_unset_bool(mark: bool)
    requires
        unset(mark),
    ensures
        !mark,
{
}

} // verus!
