//! The mathematical model of an image, and of what bleeding does to it.

use vstd::prelude::*;
use crate::pixel::{listed, Position, Rgba};

verus! {

/// What the opaque pixels around a position add up to: how many they are, and
/// the sums of their red, green and blue.
pub struct Tally {
    pub count: nat,
    pub r: nat,
    pub g: nat,
    pub b: nat,
}

impl Tally {
    /// The tally of no pixel.
    pub open spec fn zero() -> Tally {
        Tally { count: 0, r: 0, g: 0, b: 0 }
    }

    /// What one pixel adds: itself if it is opaque, nothing if it is not.
    pub open spec fn of(pixel: Rgba) -> Tally {
        if pixel.transparent() {
            Tally::zero()
        } else {
            Tally { count: 1, r: pixel.r as nat, g: pixel.g as nat, b: pixel.b as nat }
        }
    }

    /// Two tallies together.
    pub open spec fn plus(self, other: Tally) -> Tally {
        Tally {
            count: self.count + other.count,
            r: self.r + other.r,
            g: self.g + other.g,
            b: self.b + other.b,
        }
    }

    /// The colour that a tally of at least one pixel gives: each sum divided
    /// by the count, the remainder dropped, under full alpha.
    pub open spec fn mean(self) -> Rgba {
        Rgba {
            r: (self.r / self.count) as u8,
            g: (self.g / self.count) as u8,
            b: (self.b / self.count) as u8,
            a: 255,
        }
    }

    /// No sum is more than 255 for each pixel counted.
    pub open spec fn bounded(self) -> bool {
        self.r <= 255 * self.count && self.g <= 255 * self.count && self.b <= 255 * self.count
    }
}

/// Two positions are adjacent when they differ, by at most one column and at
/// most one row.
pub open spec fn adjacent(x: int, y: int, u: int, v: int) -> bool {
    x - 1 <= u <= x + 1 && y - 1 <= v <= y + 1 && !(u == x && v == y)
}

/// How many pixels of `pixels` are transparent.
pub open spec fn transparent_count(pixels: Seq<Rgba>) -> nat
    decreases pixels.len(),
{
    if pixels.len() == 0 {
        0
    } else {
        transparent_count(pixels.drop_last()) + if pixels.last().transparent() {
            1nat
        } else {
            0nat
        }
    }
}

/// An image as a value: `width * height` pixels, row by row from the top,
/// each row from the left.
pub struct Grid {
    pub width: nat,
    pub height: nat,
    pub pixels: Seq<Rgba>,
}

impl Grid {
    /// There is one pixel for each position.
    pub open spec fn wf(self) -> bool {
        self.pixels.len() == self.width * self.height
    }

    /// There is one pixel for each position, and columns and rows can be
    /// counted in `u32`.
    pub open spec fn sized(self) -> bool {
        self.wf() && self.width <= u32::MAX && self.height <= u32::MAX
    }

    /// Whether column `x` of row `y` lies inside the image.
    pub open spec fn contains(self, x: int, y: int) -> bool {
        0 <= x < self.width && 0 <= y < self.height
    }

    /// The pixel in column `x` of row `y`.
    pub open spec fn at(self, x: int, y: int) -> Rgba {
        self.pixels[y * self.width + x]
    }

    /// The column of the pixel that stands at `i`.
    pub open spec fn column_of(self, i: int) -> int {
        i % (self.width as int)
    }

    /// The row of the pixel that stands at `i`.
    pub open spec fn row_of(self, i: int) -> int {
        i / (self.width as int)
    }

    /// Whether column `x` of row `y` lies inside the image and is opaque.
    pub open spec fn opaque_at(self, x: int, y: int) -> bool {
        self.contains(x, y) && !self.at(x, y).transparent()
    }

    /// What the position adds to the tally of a pixel beside it: nothing if
    /// it lies outside the image or is transparent.
    pub open spec fn share(self, x: int, y: int) -> Tally {
        if self.contains(x, y) {
            Tally::of(self.at(x, y))
        } else {
            Tally::zero()
        }
    }

    /// The tally of the up to eight positions around column `x` of row `y`.
    pub open spec fn tally_around(self, x: int, y: int) -> Tally {
        self.share(x - 1, y - 1).plus(self.share(x - 1, y)).plus(self.share(x - 1, y + 1)).plus(
            self.share(x, y - 1),
        ).plus(self.share(x, y + 1)).plus(self.share(x + 1, y - 1)).plus(
            self.share(x + 1, y),
        ).plus(self.share(x + 1, y + 1))
    }

    /// A pixel bleeds in the next wave when it is transparent and has an
    /// opaque pixel beside it.
    pub open spec fn bleeds(self, x: int, y: int) -> bool {
        self.contains(x, y) && self.at(x, y).transparent() && self.tally_around(x, y).count > 0
    }

    /// The pixel in column `x` of row `y` after one wave: a pixel that bleeds
    /// takes the mean colour of the opaque pixels around it and becomes
    /// opaque; any other stays as it is.
    pub open spec fn wave_at(self, x: int, y: int) -> Rgba {
        if self.bleeds(x, y) {
            self.tally_around(x, y).mean()
        } else {
            self.at(x, y)
        }
    }

    /// One wave: every pixel that bleeds does so at once, each reading the
    /// image as it was before the wave.
    pub open spec fn wave(self) -> Grid {
        Grid {
            width: self.width,
            height: self.height,
            pixels: Seq::new(
                self.pixels.len(),
                |i: int| self.wave_at(self.column_of(i), self.row_of(i)),
            ),
        }
    }

    /// No pixel bleeds: a wave would change nothing.
    pub open spec fn settled(self) -> bool {
        forall|x: int, y: int| !#[trigger] self.bleeds(x, y)
    }

    /// The image after as many waves as it takes to settle. Pixels made
    /// opaque by one wave count as opaque in the next.
    pub open spec fn flood(self) -> Grid
        decreases transparent_count(self.pixels),
        when self.wf()
        via Self::flood_decreases
    {
        if self.settled() {
            self
        } else {
            self.wave().flood()
        }
    }

    #[via_fn]
    proof fn flood_decreases(self) {
        if !self.settled() {
            let (x, y) = choose|x: int, y: int| self.bleeds(x, y);
            lemma_wave_counts_less(self, x, y);
        }
    }

    /// The pixels are all opaque, or they are all transparent.
    pub open spec fn uniform(self) -> bool {
        ||| forall|i: int| 0 <= i < self.pixels.len() ==> !(#[trigger] self.pixels[i]).transparent()
        ||| forall|i: int| 0 <= i < self.pixels.len() ==> (#[trigger] self.pixels[i]).transparent()
    }

    /// What bleeding never touches is in `after` as it is here: the size,
    /// the alpha of every pixel, and every opaque pixel.
    pub open spec fn kept_by(self, after: Grid) -> bool {
        &&& after.width == self.width
        &&& after.height == self.height
        &&& after.pixels.len() == self.pixels.len()
        &&& forall|i: int|
            0 <= i < self.pixels.len() ==> (#[trigger] after.pixels[i]).a == self.pixels[i].a
        &&& forall|i: int|
            0 <= i < self.pixels.len() && !self.pixels[i].transparent()
                ==> #[trigger] after.pixels[i] == self.pixels[i]
    }

    /// Whether all of `positions` lie inside the image.
    pub open spec fn holds(self, positions: Seq<Position>) -> bool {
        forall|k: int|
            0 <= k < positions.len() ==> self.contains(
                (#[trigger] positions[k]).x as int,
                positions[k].y as int,
            )
    }

    /// Whether `positions` are the pixels that bleed in the next wave.
    pub open spec fn bleeds_at(self, positions: Seq<Position>) -> bool {
        &&& forall|k: int|
            0 <= k < positions.len() ==> self.bleeds(
                (#[trigger] positions[k]).x as int,
                positions[k].y as int,
            )
        &&& forall|x: int, y: int| #[trigger] self.bleeds(x, y) ==> listed(positions, x, y)
    }

    /// The image in which the pixels of `positions` are as a wave leaves
    /// them, and all others as they are.
    pub open spec fn wave_of(self, positions: Seq<Position>) -> Grid {
        Grid {
            width: self.width,
            height: self.height,
            pixels: Seq::new(
                self.pixels.len(),
                |i: int|
                    if listed(positions, self.column_of(i), self.row_of(i)) {
                        self.wave_at(self.column_of(i), self.row_of(i))
                    } else {
                        self.pixels[i]
                    },
            ),
        }
    }

    /// The image with the alpha of each pixel of `positions` set to zero.
    pub open spec fn cleared(self, positions: Seq<Position>) -> Grid {
        Grid {
            width: self.width,
            height: self.height,
            pixels: Seq::new(
                self.pixels.len(),
                |i: int|
                    if listed(positions, self.column_of(i), self.row_of(i)) {
                        self.pixels[i].with_alpha(0)
                    } else {
                        self.pixels[i]
                    },
            ),
        }
    }

    /// The image after bleeding: the colours that the waves leave, under the
    /// alpha that each pixel had before.
    pub open spec fn bleed(self) -> Grid {
        Grid {
            width: self.width,
            height: self.height,
            pixels: Seq::new(
                self.pixels.len(),
                |i: int| self.flood().pixels[i].with_alpha(self.pixels[i].a),
            ),
        }
    }
}

/// A position inside a `width * height` image has its own index below
/// `width * height`, from which the position can be had back.
pub proof fn lemma_index_of_position(width: nat, height: nat, x: int, y: int)
    requires
        0 <= x < width,
        0 <= y < height,
    ensures
        0 <= y * width + x < width * height,
        (y * width + x) % (width as int) == x,
        (y * width + x) / (width as int) == y,
{
    let w = width as int;
    let h = height as int;
    assert(0 <= y * w + x < w * h) by (nonlinear_arith)
        requires
            0 <= x < w,
            0 <= y < h,
    ;
    vstd::arithmetic::div_mod::lemma_fundamental_div_mod_converse(y * w + x, w, y, x);
}

/// An index below `width * height` is that of a position inside the image.
pub proof fn lemma_position_of_index(width: nat, height: nat, i: int)
    requires
        0 <= i < width * height,
    ensures
        width > 0,
        0 <= i % (width as int) < width,
        0 <= i / (width as int) < height,
        (i / (width as int)) * width + i % (width as int) == i,
{
    let w = width as int;
    let h = height as int;
    assert(w > 0) by (nonlinear_arith)
        requires
            0 <= i < w * h,
            0 <= w,
    ;
    vstd::arithmetic::div_mod::lemma_fundamental_div_mod(i, w);
    vstd::arithmetic::div_mod::lemma_mod_bound(i, w);
    let q = i / w;
    let r = i % w;
    assert(w * q == q * w) by (nonlinear_arith);
    assert(0 <= q < h) by (nonlinear_arith)
        requires
            0 <= q * w + r < w * h,
            0 <= r < w,
            0 <= h,
    ;
}

/// Inside the image, a wave gives each position what `wave_at` says.
pub proof fn lemma_wave_at(grid: Grid, x: int, y: int)
    requires
        grid.wf(),
        grid.contains(x, y),
    ensures
        grid.wave().at(x, y) == grid.wave_at(x, y),
        grid.wave().wf(),
        grid.wave().contains(x, y),
{
    lemma_index_of_position(grid.width, grid.height, x, y);
}

/// Inside the image, `wave_of` gives each listed position what a wave leaves
/// there, and each other position what it had.
pub proof fn lemma_wave_of_at(grid: Grid, positions: Seq<Position>, x: int, y: int)
    requires
        grid.wf(),
        grid.contains(x, y),
    ensures
        grid.wave_of(positions).wf(),
        grid.wave_of(positions).at(x, y) == if listed(positions, x, y) {
            grid.wave_at(x, y)
        } else {
            grid.at(x, y)
        },
{
    lemma_index_of_position(grid.width, grid.height, x, y);
}

/// Once all the pixels that bleed have done so, the wave is over.
pub proof fn lemma_wave_of_all(grid: Grid, positions: Seq<Position>)
    requires
        grid.wf(),
        grid.bleeds_at(positions),
    ensures
        grid.wave_of(positions) == grid.wave(),
{
    assert forall|x: int, y: int| grid.contains(x, y) implies #[trigger] grid.wave_of(
        positions,
    ).at(x, y) == grid.wave().at(x, y) by {
        lemma_wave_of_at(grid, positions, x, y);
        lemma_wave_at(grid, x, y);
        if listed(positions, x, y) {
            let k = choose|k: int|
                0 <= k < positions.len() && (#[trigger] positions[k]).x == x && positions[k].y
                    == y;
            assert(grid.bleeds(positions[k].x as int, positions[k].y as int));
        }
    }
    lemma_grids_equal(grid.wave_of(positions), grid.wave());
}

/// Inside the image, clearing gives each position what it had, without its
/// alpha if the position is listed.
pub proof fn lemma_cleared_at(grid: Grid, positions: Seq<Position>, x: int, y: int)
    requires
        grid.wf(),
        grid.contains(x, y),
    ensures
        grid.cleared(positions).wf(),
        grid.cleared(positions).at(x, y) == if listed(positions, x, y) {
            grid.at(x, y).with_alpha(0)
        } else {
            grid.at(x, y)
        },
{
    lemma_index_of_position(grid.width, grid.height, x, y);
}

/// A wave changes only transparent pixels, and only into opaque ones.
pub proof fn lemma_wave_pixels(grid: Grid)
    requires
        grid.wf(),
    ensures
        grid.wave().wf(),
        forall|i: int|
            0 <= i < grid.pixels.len() && !grid.pixels[i].transparent()
                ==> #[trigger] grid.wave().pixels[i] == grid.pixels[i],
        forall|i: int|
            0 <= i < grid.pixels.len() && (#[trigger] grid.wave().pixels[i]).transparent()
                ==> grid.wave().pixels[i] == grid.pixels[i],
{
    assert forall|i: int| 0 <= i < grid.pixels.len() implies (!grid.pixels[i].transparent()
        ==> #[trigger] grid.wave().pixels[i] == grid.pixels[i]) && (
    grid.wave().pixels[i].transparent() ==> grid.wave().pixels[i] == grid.pixels[i]) by {
        lemma_position_of_index(grid.width, grid.height, i);
    }
}

/// The waves end in an image of the same size in which no pixel bleeds.
/// They change only transparent pixels, and only into opaque ones.
pub proof fn lemma_flood(grid: Grid)
    requires
        grid.wf(),
    ensures
        grid.flood().wf(),
        grid.flood().width == grid.width,
        grid.flood().height == grid.height,
        grid.flood().settled(),
        forall|i: int|
            0 <= i < grid.pixels.len() && !grid.pixels[i].transparent()
                ==> #[trigger] grid.flood().pixels[i] == grid.pixels[i],
        forall|i: int|
            0 <= i < grid.pixels.len() && (#[trigger] grid.flood().pixels[i]).transparent()
                ==> grid.flood().pixels[i] == grid.pixels[i],
    decreases transparent_count(grid.pixels),
{
    if !grid.settled() {
        let (x, y) = choose|x: int, y: int| grid.bleeds(x, y);
        lemma_wave_counts_less(grid, x, y);
        lemma_wave_pixels(grid);
        lemma_flood(grid.wave());
    }
}

/// Inside the image, bleeding gives each position the colour that the waves
/// leave there, under the alpha that it had.
pub proof fn lemma_bleed_at(grid: Grid, x: int, y: int)
    requires
        grid.wf(),
        grid.contains(x, y),
    ensures
        grid.bleed().wf(),
        grid.bleed().at(x, y) == grid.flood().at(x, y).with_alpha(grid.at(x, y).a),
{
    lemma_flood(grid);
    lemma_index_of_position(grid.width, grid.height, x, y);
}

/// Two images of one size with the same pixel at each position are the same.
pub proof fn lemma_grids_equal(a: Grid, b: Grid)
    requires
        a.wf(),
        b.wf(),
        a.width == b.width,
        a.height == b.height,
        forall|x: int, y: int| a.contains(x, y) ==> #[trigger] a.at(x, y) == b.at(x, y),
    ensures
        a == b,
{
    assert forall|i: int| 0 <= i < a.pixels.len() implies a.pixels[i] == b.pixels[i] by {
        lemma_position_of_index(a.width, a.height, i);
        let x = i % (a.width as int);
        let y = i / (a.width as int);
        assert(a.at(x, y) == b.at(x, y));
    }
    assert(a.pixels =~= b.pixels);
}

/// A pixel that was transparent where the other was, and no more, counts no
/// more transparent pixels; one fewer at least if somewhere it is opaque
/// where the other is not.
pub proof fn lemma_count_shrinks(before: Seq<Rgba>, after: Seq<Rgba>)
    requires
        before.len() == after.len(),
        forall|i: int| 0 <= i < after.len() && after[i].transparent() ==> before[i].transparent(),
    ensures
        transparent_count(after) <= transparent_count(before),
        (exists|i: int| 0 <= i < after.len() && before[i].transparent() && !after[i].transparent())
            ==> transparent_count(after) < transparent_count(before),
    decreases before.len(),
{
    if before.len() > 0 {
        let b = before.drop_last();
        let a = after.drop_last();
        lemma_count_shrinks(b, a);
        if exists|i: int|
            0 <= i < after.len() && before[i].transparent() && !after[i].transparent() {
            let i = choose|i: int|
                0 <= i < after.len() && before[i].transparent() && !after[i].transparent();
            if i < a.len() {
                assert(b[i].transparent() && !a[i].transparent());
            }
        }
    }
}

/// A wave in which some pixel bleeds leaves fewer transparent pixels.
pub proof fn lemma_wave_counts_less(grid: Grid, x: int, y: int)
    requires
        grid.wf(),
        grid.bleeds(x, y),
    ensures
        transparent_count(grid.wave().pixels) < transparent_count(grid.pixels),
{
    let after = grid.wave().pixels;
    assert forall|i: int|
        0 <= i < after.len() && after[i].transparent() implies grid.pixels[i].transparent() by {
        lemma_position_of_index(grid.width, grid.height, i);
    }
    lemma_index_of_position(grid.width, grid.height, x, y);
    let k = y * grid.width + x;
    assert(grid.pixels[k].transparent() && !after[k].transparent());
    lemma_count_shrinks(grid.pixels, after);
}

} // verus!
