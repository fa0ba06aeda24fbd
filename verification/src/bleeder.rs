//! The bleeder: it finds the transparent pixels that touch opaque ones,
//! gives them the mean colour of those, and goes on from the pixels so
//! coloured until none is left to colour.

use vstd::prelude::*;
use crate::grid::{
    adjacent, lemma_bleed_at, lemma_cleared_at, lemma_grids_equal, lemma_index_of_position,
    lemma_wave_at, lemma_wave_of_all, lemma_wave_of_at, Grid, Tally,
};
use crate::marks::{lemma_marks_by_position, lemma_unset_bool, PixelMarks};
use crate::neighborhood::{
    lemma_gathered_complete, lemma_gathered_sound, lemma_tally_bounded, lemma_tally_counts,
    lemma_tally_neighbors, lemma_tally_push, tally_of, Neighbor,
};
use crate::pixel::{
    distinct, lemma_distinct_add, lemma_listed_add, lemma_listed_push, listed, Position, Rgba,
};
use crate::raster::Raster;

verus! {

/// The state of one run over one image.
pub struct AlphaBleeder {
    width: u32,
    height: u32,
    marks: PixelMarks<bool>,
    pending_clear: Vec<Position>,
    waves: Ghost<nat>,
}

impl Default for AlphaBleeder {
    /// A bleeder that has not been run.
    fn default() -> (made: AlphaBleeder)
        ensures
            made.wf(),
            made.columns() == 0,
            made.rows() == 0,
            made.pending() == Seq::<Position>::empty(),
            made.waves_run() == 0,
    {
        AlphaBleeder {
            width: 0,
            height: 0,
            marks: PixelMarks::default(),
            pending_clear: Vec::new(),
            waves: Ghost(0),
        }
    }
}

/// Whether column `x` of row `y` lies beside one of the first `upto` of
/// `positions`.
spec fn near(positions: Seq<Position>, upto: int, x: int, y: int) -> bool {
    exists|j: int|
        0 <= j < upto && j < positions.len() && adjacent(
            (#[trigger] positions[j]).x as int,
            positions[j].y as int,
            x,
            y,
        )
}

/// What is queued for the next wave once the first `upto` pixels of
/// `frontier` have been gone through: pixels that are transparent, do not
/// bleed in this wave and lie beside one of those, each once.
spec fn queued(
    grid: Grid,
    frontier: Seq<Position>,
    upto: int,
    next: Seq<Position>,
) -> bool {
    &&& distinct(next)
    &&& forall|k: int|
        0 <= k < next.len() ==> {
            let p = #[trigger] next[k];
            &&& grid.contains(p.x as int, p.y as int)
            &&& grid.at(p.x as int, p.y as int).transparent()
            &&& !grid.bleeds(p.x as int, p.y as int)
            &&& near(frontier, upto, p.x as int, p.y as int)
        }
}

/// What is set aside to be written at the end of a wave: for each pixel of
/// `frontier` gone through, its position and what the wave leaves there.
spec fn staged(
    grid: Grid,
    frontier: Seq<Position>,
    writes: Seq<(u32, u32, Rgba)>,
) -> bool {
    &&& writes.len() <= frontier.len()
    &&& forall|j: int|
        0 <= j < writes.len() ==> #[trigger] writes[j] == (
            frontier[j].x,
            frontier[j].y,
            grid.wave_at(frontier[j].x as int, frontier[j].y as int),
        )
}

impl AlphaBleeder {
    /// The number of columns of the image that the run is on.
    pub closed spec fn columns(&self) -> nat {
        self.width as nat
    }

    /// The number of rows of the image that the run is on.
    pub closed spec fn rows(&self) -> nat {
        self.height as nat
    }

    /// The marks of the pixels that are settled or on their way.
    pub closed spec fn marks(&self) -> PixelMarks<bool> {
        self.marks
    }

    /// The pixels coloured so far, in the order in which they were.
    pub closed spec fn pending(&self) -> Seq<Position> {
        self.pending_clear@
    }

    /// The number of waves of the run so far.
    pub closed spec fn waves_run(&self) -> nat {
        self.waves@
    }

    /// There is one mark for each position.
    pub open spec fn wf(&self) -> bool {
        self.marks().fits(self.columns(), self.rows())
    }

    /// Whether column `x` of row `y` lies inside the image.
    pub open spec fn covers(&self, x: int, y: int) -> bool {
        0 <= x < self.columns() && 0 <= y < self.rows()
    }

    /// Whether the pixel in column `x` of row `y` is marked.
    pub open spec fn processed(&self, x: int, y: int) -> bool {
        self.marks().marked(x, y)
    }

    /// The run is on an image of the size of `grid`.
    pub open spec fn fits(&self, grid: Grid) -> bool {
        grid.sized() && self.columns() == grid.width && self.rows() == grid.height && self.wf()
    }

    /// Marked are the opaque pixels of `grid`, those that bleed in the next
    /// wave and those of `next`, and no others.
    pub open spec fn marks_cover(&self, grid: Grid, next: Seq<Position>) -> bool {
        forall|x: int, y: int|
            grid.contains(x, y) ==> (#[trigger] self.processed(x, y) <==> grid.opaque_at(x, y)
                || grid.bleeds(x, y) || listed(next, x, y))
    }

    /// Every pixel beside one of the first `upto` of `frontier` is marked.
    spec fn marked_beside(&self, grid: Grid, frontier: Seq<Position>, upto: int) -> bool {
        forall|j: int, x: int, y: int|
            0 <= j < upto && j < frontier.len() && grid.contains(x, y) && adjacent(
                (#[trigger] frontier[j]).x as int,
                frontier[j].y as int,
                x,
                y,
            ) ==> #[trigger] self.processed(x, y)
    }

    /// The marks and the pixels to colour next go with `grid`: `frontier`
    /// holds the pixels that bleed in the next wave, each once; marked are
    /// those and the opaque pixels; and the pixels coloured so far lie
    /// inside the image.
    pub open spec fn tracks(&self, grid: Grid, frontier: Seq<Position>) -> bool {
        &&& self.fits(grid)
        &&& distinct(frontier)
        &&& grid.bleeds_at(frontier)
        &&& self.marks_cover(grid, Seq::empty())
        &&& grid.holds(self.pending())
    }

    /// Bleeds `image`: wave after wave, the transparent pixels take the mean
    /// colour of the opaque pixels beside them, those coloured in one wave
    /// counting as opaque in the next, until a wave finds nothing to colour;
    /// then every pixel gets back the alpha that it had. The pixels coloured
    /// are left in the list of the run, each once.
    pub fn execute(&mut self, image: &mut Raster)
        ensures
            final(image)@ == old(image)@.bleed(),
            final(image).spare() == old(image).spare(),
            final(self).waves_run() == old(image)@.wave_count(),
            distinct(final(self).pending()),
            forall|x: int, y: int|
                old(image)@.contains(x, y) ==> (#[trigger] listed(final(self).pending(), x, y)
                    <==> old(image)@.at(x, y).transparent() && !old(image)@.flood().at(
                    x,
                    y,
                ).transparent()),
    {
        let ghost before = image@;
        let mut next = self.setup(image);
        while !next.is_empty()
            invariant
                before == old(image)@,
                self.tracks(image@, next@),
                image.spare() == old(image).spare(),
                image@.width == before.width,
                image@.height == before.height,
                image@.flood() == before.flood(),
                self.waves_run() + image@.wave_count() == before.wave_count(),
                distinct(self.pending()),
                forall|x: int, y: int|
                    #[trigger] before.opaque_at(x, y) ==> image@.at(x, y) == before.at(x, y),
                forall|x: int, y: int|
                    before.contains(x, y) ==> (#[trigger] listed(self.pending(), x, y)
                        <==> before.at(x, y).transparent() && !image@.at(x, y).transparent()),
            decreases image@.wave_count(),
        {
            let ghost grid = image@;
            let ghost frontier = next@;
            let ghost pending = self.pending();
            assert(grid.bleeds(frontier[0].x as int, frontier[0].y as int));
            next = self.single_pass(next, image);
            proof {
                assert forall|x: int, y: int| before.contains(x, y) implies #[trigger] image@.at(
                    x,
                    y,
                ) == grid.wave_at(x, y) by {
                    lemma_wave_at(grid, x, y);
                }
                assert forall|x: int, y: int| before.contains(x, y) implies (#[trigger] listed(
                    self.pending(),
                    x,
                    y,
                ) <==> before.at(x, y).transparent() && !image@.at(x, y).transparent()) by {
                    lemma_listed_add(pending, frontier, x, y);
                    assert(image@.at(x, y) == grid.wave_at(x, y));
                    assert(listed(pending, x, y) <==> before.at(x, y).transparent() && !grid.at(
                        x,
                        y,
                    ).transparent());
                    if listed(frontier, x, y) {
                        let k = choose|k: int|
                            0 <= k < frontier.len() && (#[trigger] frontier[k]).x == x
                                && frontier[k].y == y;
                        assert(grid.bleeds(frontier[k].x as int, frontier[k].y as int));
                    }
                    if before.opaque_at(x, y) {
                        assert(grid.at(x, y) == before.at(x, y));
                    }
                }
                assert forall|x: int, y: int| #[trigger] before.opaque_at(x, y) implies image@.at(
                    x,
                    y,
                ) == before.at(x, y) by {
                    assert(image@.at(x, y) == grid.wave_at(x, y));
                }
                assert forall|j: int, k: int|
                    0 <= j < pending.len() && 0 <= k < frontier.len() implies #[trigger] pending[j]
                    != #[trigger] frontier[k] by {
                    assert(listed(pending, pending[j].x as int, pending[j].y as int));
                    assert(grid.bleeds(frontier[k].x as int, frontier[k].y as int));
                }
                lemma_distinct_add(pending, frontier);
            }
        }
        let ghost flooded = image@;
        self.finalize(image);
        proof {
            let bled = before.bleed();
            assert forall|x: int, y: int| image@.contains(x, y) implies #[trigger] image@.at(x, y)
                == bled.at(x, y) by {
                lemma_cleared_at(flooded, self.pending(), x, y);
                lemma_bleed_at(before, x, y);
                assert(listed(self.pending(), x, y) <==> before.at(x, y).transparent()
                    && !flooded.at(x, y).transparent());
                if before.opaque_at(x, y) {
                    assert(flooded.at(x, y) == before.at(x, y));
                }
            }
            lemma_grids_equal(image@, bled);
        }
    }

    /// Starts a run on `image`: marks the opaque pixels and the transparent
    /// ones that touch an opaque one, and returns the latter, which are the
    /// first to be coloured. The image is only read.
    pub fn setup(&mut self, image: &mut Raster) -> (next: Vec<Position>)
        ensures
            *final(image) == *old(image),
            final(self).tracks(final(image)@, next@),
            final(self).pending() == Seq::<Position>::empty(),
            final(self).waves_run() == 0,
            next@.len() == 0 <==> final(image)@.settled(),
    {
        let ghost grid = image@;
        let (width, height) = (image.width(), image.height());
        self.width = width;
        self.height = height;
        self.pending_clear = Vec::new();
        self.waves = Ghost(0);
        self.reset_processed_pixels_map();
        let mut next: Vec<Position> = Vec::new();
        for y in 0..height
            invariant
                *image == *old(image),
                grid == image@,
                width == grid.width,
                height == grid.height,
                self.fits(grid),
                self.pending() == Seq::<Position>::empty(),
                self.waves_run() == 0,
                Self::scanned(*self, grid, next@, 0, y as int),
        {
            for x in 0..width
                invariant
                    y < height,
                    *image == *old(image),
                    grid == image@,
                    width == grid.width,
                    height == grid.height,
                    self.fits(grid),
                    self.pending() == Seq::<Position>::empty(),
                    self.waves_run() == 0,
                    Self::scanned(*self, grid, next@, x as int, y as int),
            {
                let ghost before = next@;
                if image.get_pixel(x, y).is_transparent() {
                    if Self::has_opaque_neighbor(image, x, y) {
                        next.push(Position { x, y });
                        self.mark_pixel_processed(x, y);
                        assert(next@[before.len() as int] == Position { x, y });
                    }
                } else {
                    self.mark_pixel_processed(x, y);
                }
                assert forall|u: int, v: int|
                    #[trigger] grid.bleeds(u, v) && (v < y || (v == y && u < x + 1)) implies listed(
                    next@,
                    u,
                    v,
                ) by {
                    if v < y || (v == y && u < x) {
                        let k = choose|k: int|
                            0 <= k < before.len() && (#[trigger] before[k]).x == u && before[k].y
                                == v;
                        assert(next@[k] == before[k]);
                    }
                }
            }
        }
        proof {
            self.lemma_tracks_settled(grid, next@);
        }
        next
    }

    /// How far a scan has come that goes row by row and, in row `y`, has
    /// reached column `x`: of the pixels passed, those that bleed are in
    /// `next`, each once, and those and the opaque ones are marked; nothing
    /// else is in `next` or marked.
    spec fn scanned(
        bleeder: AlphaBleeder,
        grid: Grid,
        next: Seq<Position>,
        x: int,
        y: int,
    ) -> bool {
        &&& distinct(next)
        &&& forall|k: int|
            0 <= k < next.len() ==> grid.bleeds((#[trigger] next[k]).x as int, next[k].y as int)
                && (next[k].y < y || (next[k].y == y && next[k].x < x))
        &&& forall|u: int, v: int|
            #[trigger] grid.bleeds(u, v) && (v < y || (v == y && u < x)) ==> listed(next, u, v)
        &&& forall|u: int, v: int|
            grid.contains(u, v) ==> (#[trigger] bleeder.processed(u, v) <==> (v < y || (v == y
                && u < x)) && (grid.opaque_at(u, v) || grid.bleeds(u, v)))
    }

    /// Takes all marks away.
    pub fn reset_processed_pixels_map(&mut self)
        requires
            old(self).columns() * old(self).rows() <= usize::MAX,
        ensures
            final(self).wf(),
            final(self).columns() == old(self).columns(),
            final(self).rows() == old(self).rows(),
            final(self).pending() == old(self).pending(),
            final(self).waves_run() == old(self).waves_run(),
            forall|x: int, y: int|
                final(self).covers(x, y) ==> !#[trigger] final(self).processed(x, y),
    {
        self.marks = PixelMarks::new(self.width, self.height);
        assert forall|x: int, y: int| self.covers(x, y) implies !#[trigger] self.processed(
            x,
            y,
        ) by {
            lemma_index_of_position(self.columns(), self.rows(), x, y);
            lemma_unset_bool(self.marks().cells()[y * self.columns() + x]);
        }
    }

    /// Marks the pixel in column `x` of row `y`.
    pub fn mark_pixel_processed(&mut self, x: u32, y: u32)
        requires
            old(self).wf(),
            old(self).covers(x as int, y as int),
        ensures
            final(self).wf(),
            final(self).columns() == old(self).columns(),
            final(self).rows() == old(self).rows(),
            final(self).pending() == old(self).pending(),
            final(self).waves_run() == old(self).waves_run(),
            forall|u: int, v: int|
                final(self).covers(u, v) ==> #[trigger] final(self).processed(u, v) == (old(
                    self,
                ).processed(u, v) || (u == x && v == y)),
    {
        proof {
            lemma_index_of_position(self.columns(), self.rows(), x as int, y as int);
        }
        self.marks.set(x, y, true);
        proof {
            lemma_marks_by_position(
                old(self).marks(),
                self.marks(),
                self.columns(),
                self.rows(),
                x as int,
                y as int,
                true,
            );
        }
    }

    /// Whether the pixel in column `x` of row `y` is marked.
    pub fn is_pixel_processed(&self, x: u32, y: u32) -> (marked: bool)
        requires
            self.wf(),
            self.covers(x as int, y as int),
        ensures
            marked == self.processed(x as int, y as int),
    {
        proof {
            lemma_index_of_position(self.columns(), self.rows(), x as int, y as int);
        }
        self.marks.get(x, y)
    }

    /// Where the mark of column `x` of row `y` stands: row by row.
    pub fn get_pixel_index(&self, x: u32, y: u32) -> (index: usize)
        requires
            self.wf(),
            self.covers(x as int, y as int),
        ensures
            index == y * self.columns() + x,
    {
        proof {
            lemma_index_of_position(self.columns(), self.rows(), x as int, y as int);
        }
        self.marks.index(x, y)
    }

    /// One wave: colours the pixels of `pixels`, each with the mean of the
    /// opaque pixels that lay beside it before the wave, and returns the
    /// pixels that the next wave colours. No pixel is written before all have
    /// been read.
    pub fn single_pass(&mut self, pixels: Vec<Position>, image: &mut Raster) -> (next: Vec<
        Position,
    >)
        requires
            old(self).tracks(old(image)@, pixels@),
        ensures
            final(image)@ == old(image)@.wave(),
            final(image).spare() == old(image).spare(),
            final(self).tracks(final(image)@, next@),
            final(self).pending() == old(self).pending() + pixels@,
            final(self).waves_run() == old(self).waves_run() + 1,
            next@.len() == 0 <==> final(image)@.settled(),
    {
        let ghost grid = image@;
        let mut should_bleeding: Vec<(u32, u32, Rgba)> = Vec::new();
        let mut next: Vec<Position> = Vec::new();
        proof {
            self.waves = Ghost(self.waves@ + 1);
            assert forall|u: int, v: int| #[trigger]
                self.processed(u, v) == old(self).processed(u, v) by {}
            assert(old(self).pending() + pixels@.take(0) =~= old(self).pending());
        }
        for n in 0..pixels.len()
            invariant
                *image == *old(image),
                grid == image@,
                old(self).tracks(grid, pixels@),
                self.fits(grid),
                self.pending() == old(self).pending() + pixels@.take(n as int),
                self.waves_run() == old(self).waves_run() + 1,
                should_bleeding.len() == n,
                staged(grid, pixels@, should_bleeding@),
                queued(grid, pixels@, n as int, next@),
                self.marks_cover(grid, next@),
                self.marked_beside(grid, pixels@, n as int),
        {
            let Position { x, y } = pixels[n];
            let neighbors = Self::find_neighbors(image, x, y);
            proof {
                lemma_tally_neighbors(grid, x as int, y as int);
                lemma_gathered_sound(grid, x as int, y as int, 9);
            }
            let (mut r, mut g, mut b): (u32, u32, u32) = (0, 0, 0);
            let mut count: u32 = 0;
            for m in 0..neighbors.len()
                invariant
                    n < pixels.len(),
                    pixels@[n as int] == (Position { x, y }),
                    *image == *old(image),
                    grid == image@,
                    old(self).tracks(grid, pixels@),
                    self.fits(grid),
                    self.pending() == old(self).pending() + pixels@.take(n as int),
                    self.waves_run() == old(self).waves_run() + 1,
                    neighbors@ == grid.neighbors(x as int, y as int),
                    neighbors.len() <= 8,
                    forall|i: int|
                        0 <= i < neighbors.len() ==> {
                            let e = #[trigger] neighbors@[i];
                            &&& grid.contains(e.1 as int, e.2 as int)
                            &&& adjacent(x as int, y as int, e.1 as int, e.2 as int)
                            &&& e.0 == grid.at(e.1 as int, e.2 as int)
                        },
                    tally_of(neighbors@.take(m as int)) == (Tally {
                        count: count as nat,
                        r: r as nat,
                        g: g as nat,
                        b: b as nat,
                    }),
                    queued(grid, pixels@, n + 1, next@),
                    self.marks_cover(grid, next@),
                    self.marked_beside(grid, pixels@, n as int),
                    forall|i: int|
                        0 <= i < m ==> self.processed(
                            (#[trigger] neighbors@[i]).1 as int,
                            neighbors@[i].2 as int,
                        ),
            {
                let (pixel, nx, ny) = neighbors[m];
                let ghost before = next@;
                proof {
                    assert(neighbors@.take(m + 1) =~= neighbors@.take(m as int).push(
                        neighbors@[m as int],
                    ));
                    lemma_tally_push(neighbors@.take(m as int), neighbors@[m as int]);
                    lemma_tally_bounded(neighbors@.take(m as int));
                }
                if pixel.a() > 0 {
                    r += pixel.r() as u32;
                    g += pixel.g() as u32;
                    b += pixel.b() as u32;
                    count += 1;
                } else if !self.is_pixel_processed(nx, ny) {
                    self.mark_pixel_processed(nx, ny);
                    next.push(Position { x: nx, y: ny });
                    proof {
                        Self::lemma_queued_push(grid, pixels@, n + 1, before, n as int, nx, ny);
                        assert forall|u: int, v: int| listed(next@, u, v) <==> listed(before, u, v)
                            || (u == nx && v == ny) by {
                            lemma_listed_push(before, Position { x: nx, y: ny }, u, v);
                        }
                    }
                }
            }
            proof {
                assert(neighbors@.take(neighbors.len() as int) =~= neighbors@);
                lemma_tally_bounded(neighbors@);
                assert(grid.bleeds(x as int, y as int));
                assert forall|u: int, v: int|
                    grid.contains(u, v) && adjacent(
                        x as int,
                        y as int,
                        u,
                        v,
                    ) implies self.processed(u, v) by {
                    lemma_gathered_complete(grid, x as int, y as int, 9, u, v);
                    let i = choose|i: int|
                        0 <= i < neighbors@.len() && #[trigger] neighbors@[i] == (
                            grid.at(u, v),
                            u as u32,
                            v as u32,
                        );
                    assert(self.processed(neighbors@[i].1 as int, neighbors@[i].2 as int));
                }
                assert(pixels@.take(n + 1) =~= pixels@.take(n as int).push(pixels@[n as int]));
                assert(r / count <= 255 && g / count <= 255 && b / count <= 255)
                    by (nonlinear_arith)
                    requires
                        count > 0,
                        r <= 255 * count,
                        g <= 255 * count,
                        b <= 255 * count,
                ;
            }
            let (r, g, b) = ((r / count) as u8, (g / count) as u8, (b / count) as u8);
            should_bleeding.push((x, y, Rgba { r, g, b, a: 255 }));
            let ghost marked = *self;
            self.pending_clear.push(Position { x, y });
            assert forall|u: int, v: int| #[trigger]
                self.processed(u, v) == marked.processed(u, v) by {}
        }
        proof {
            assert(pixels@.take(pixels.len() as int) =~= pixels@);
            assert(grid.wave_of(pixels@.take(0)) == grid) by {
                assert forall|u: int, v: int| grid.contains(u, v) implies #[trigger] grid.wave_of(
                    pixels@.take(0),
                ).at(u, v) == grid.at(u, v) by {
                    lemma_wave_of_at(grid, pixels@.take(0), u, v);
                }
                lemma_grids_equal(grid.wave_of(pixels@.take(0)), grid);
            }
        }
        for t in 0..should_bleeding.len()
            invariant
                should_bleeding.len() == pixels.len(),
                grid == old(image)@,
                grid.wf(),
                grid.holds(pixels@),
                staged(grid, pixels@, should_bleeding@),
                image@ == grid.wave_of(pixels@.take(t as int)),
                image.spare() == old(image).spare(),
        {
            let (x, y, pixel) = should_bleeding[t];
            let ghost before = image@;
            assert(pixels@[t as int].x == x && pixels@[t as int].y == y);
            image.put_pixel(x, y, pixel);
            proof {
                let after = grid.wave_of(pixels@.take(t + 1));
                assert(pixels@.take(t + 1) =~= pixels@.take(t as int).push(pixels@[t as int]));
                assert forall|u: int, v: int| image@.contains(u, v) implies #[trigger] image@.at(
                    u,
                    v,
                ) == after.at(u, v) by {
                    lemma_listed_push(pixels@.take(t as int), pixels@[t as int], u, v);
                    lemma_wave_of_at(grid, pixels@.take(t as int), u, v);
                    lemma_wave_of_at(grid, pixels@.take(t + 1), u, v);
                    assert(before.contains(u, v));
                }
                lemma_grids_equal(image@, after);
            }
        }
        proof {
            assert(pixels@.take(pixels.len() as int) =~= pixels@);
            lemma_wave_of_all(grid, pixels@);
            assert forall|k: int| 0 <= k < self.pending().len() implies grid.contains(
                (#[trigger] self.pending()[k]).x as int,
                self.pending()[k].y as int,
            ) by {
                let before = old(self).pending();
                if k < before.len() {
                    assert(self.pending()[k] == before[k]);
                } else {
                    assert(self.pending()[k] == pixels@[k - before.len()]);
                }
            }
            Self::lemma_wave_tracked(*self, grid, pixels@, next@);
            self.lemma_tracks_settled(grid.wave(), next@);
        }
        next
    }

    /// The pixels beside column `x` of row `y`, each with its position:
    /// every position adjacent to it and inside the image, once.
    pub fn find_neighbors(image: &Raster, x: u32, y: u32) -> (neighbors: Vec<Neighbor>)
        requires
            image@.contains(x as int, y as int),
        ensures
            neighbors@ == image@.neighbors(x as int, y as int),
    {
        let (width, height) = (image.width(), image.height());
        let mut neighbors: Vec<Neighbor> = Vec::new();
        for i in -1i64..2
            invariant
                image@.contains(x as int, y as int),
                width == image@.width,
                height == image@.height,
                neighbors@ == image@.gathered(x as int, y as int, (3 * (i + 1)) as nat),
        {
            for j in -1i64..2
                invariant
                    -1 <= i < 2,
                    image@.contains(x as int, y as int),
                    width == image@.width,
                    height == image@.height,
                    neighbors@ == image@.gathered(
                        x as int,
                        y as int,
                        (3 * (i + 1) + (j + 1)) as nat,
                    ),
            {
                let nx: i64 = x as i64 + i;
                let ny: i64 = y as i64 + j;
                if !(i == 0 && j == 0) && nx >= 0 && ny >= 0 {
                    let nx: u32 = nx as u32;
                    let ny: u32 = ny as u32;
                    if nx < width && ny < height {
                        let pixel = image.get_pixel(nx, ny);
                        neighbors.push((pixel, nx, ny));
                    }
                }
            }
        }
        neighbors
    }

    /// Whether an opaque pixel lies beside column `x` of row `y`.
    pub fn has_opaque_neighbor(image: &Raster, x: u32, y: u32) -> (found: bool)
        requires
            image@.contains(x as int, y as int),
        ensures
            found == (image@.tally_around(x as int, y as int).count > 0),
            found == exists|u: int, v: int|
                adjacent(x as int, y as int, u, v) && #[trigger] image@.opaque_at(u, v),
    {
        let neighbors = Self::find_neighbors(image, x, y);
        proof {
            lemma_tally_neighbors(image@, x as int, y as int);
            lemma_gathered_sound(image@, x as int, y as int, 9);
            lemma_tally_counts(image@, x as int, y as int);
        }
        for i in 0..neighbors.len()
            invariant
                neighbors@ == image@.neighbors(x as int, y as int),
                tally_of(neighbors@.take(i as int)).count == 0,
                forall|k: int|
                    0 <= k < neighbors.len() ==> {
                        let e = #[trigger] neighbors@[k];
                        &&& image@.contains(e.1 as int, e.2 as int)
                        &&& adjacent(x as int, y as int, e.1 as int, e.2 as int)
                        &&& e.0 == image@.at(e.1 as int, e.2 as int)
                    },
                image@.tally_around(x as int, y as int).count > 0 <==> exists|u: int, v: int|
                    adjacent(x as int, y as int, u, v) && #[trigger] image@.opaque_at(u, v),
        {
            let (pixel, nx, ny) = neighbors[i];
            if pixel.a() > 0 {
                assert(neighbors@[i as int] == (pixel, nx, ny));
                assert(image@.opaque_at(nx as int, ny as int));
                return true;
            }
            proof {
                assert(neighbors@.take(i + 1) =~= neighbors@.take(i as int).push(
                    neighbors@[i as int],
                ));
                lemma_tally_push(neighbors@.take(i as int), neighbors@[i as int]);
            }
        }
        assert(neighbors@.take(neighbors.len() as int) =~= neighbors@);
        false
    }

    /// Sets the alpha of every pixel coloured in the run back to zero, and
    /// leaves its colour.
    pub fn finalize(&mut self, image: &mut Raster)
        requires
            old(image)@.holds(old(self).pending()),
        ensures
            *final(self) == *old(self),
            final(image)@ == old(image)@.cleared(old(self).pending()),
            final(image).spare() == old(image).spare(),
    {
        let ghost grid = image@;
        proof {
            assert forall|u: int, v: int| grid.contains(u, v) implies #[trigger] grid.cleared(
                self.pending().take(0),
            ).at(u, v) == grid.at(u, v) by {
                lemma_cleared_at(grid, self.pending().take(0), u, v);
            }
            lemma_grids_equal(grid.cleared(self.pending().take(0)), grid);
        }
        for k in 0..self.pending_clear.len()
            invariant
                *self == *old(self),
                grid == old(image)@,
                grid.holds(self.pending()),
                image@ == grid.cleared(self.pending().take(k as int)),
                image.spare() == old(image).spare(),
        {
            let Position { x, y } = self.pending_clear[k];
            let ghost before = image@;
            let ghost done = self.pending().take(k as int);
            assert(self.pending()[k as int] == Position { x, y });
            let mut pixel = image.get_pixel(x, y);
            pixel.set_transparent();
            image.put_pixel(x, y, pixel);
            proof {
                let after = grid.cleared(self.pending().take(k + 1));
                assert(self.pending().take(k + 1) =~= done.push(self.pending()[k as int]));
                assert forall|u: int, v: int| image@.contains(u, v) implies #[trigger] image@.at(
                    u,
                    v,
                ) == after.at(u, v) by {
                    lemma_listed_push(done, self.pending()[k as int], u, v);
                    lemma_cleared_at(grid, done, u, v);
                    lemma_cleared_at(grid, self.pending().take(k + 1), u, v);
                    assert(before.contains(u, v));
                }
                lemma_grids_equal(image@, after);
            }
        }
        assert(self.pending().take(self.pending().len() as int) =~= self.pending());
    }

    /// A pixel that is not queued yet, does not bleed in this wave and lies
    /// beside a pixel gone through can be queued.
    proof fn lemma_queued_push(
        grid: Grid,
        frontier: Seq<Position>,
        upto: int,
        next: Seq<Position>,
        j: int,
        x: u32,
        y: u32,
    )
        requires
            queued(grid, frontier, upto, next),
            0 <= j < upto,
            j < frontier.len(),
            adjacent(frontier[j].x as int, frontier[j].y as int, x as int, y as int),
            grid.contains(x as int, y as int),
            grid.at(x as int, y as int).transparent(),
            !grid.bleeds(x as int, y as int),
            !listed(next, x as int, y as int),
        ensures
            queued(grid, frontier, upto, next.push(Position { x, y })),
    {
        let longer = next.push(Position { x, y });
        assert forall|a: int, b: int| 0 <= a < b < longer.len() implies #[trigger] longer[a]
            != #[trigger] longer[b] by {
            if b < next.len() {
                assert(next[a] != next[b]);
            } else {
                assert(next[a] == longer[a]);
            }
        }
        assert forall|k: int| 0 <= k < longer.len() implies {
            let p = #[trigger] longer[k];
            &&& grid.contains(p.x as int, p.y as int)
            &&& grid.at(p.x as int, p.y as int).transparent()
            &&& !grid.bleeds(p.x as int, p.y as int)
            &&& near(frontier, upto, p.x as int, p.y as int)
        } by {
            if k < next.len() {
                assert(longer[k] == next[k]);
            }
        }
    }

    /// Nothing is left to colour exactly when no pixel bleeds.
    proof fn lemma_tracks_settled(&self, grid: Grid, frontier: Seq<Position>)
        requires
            self.tracks(grid, frontier),
        ensures
            frontier.len() == 0 <==> grid.settled(),
    {
        if frontier.len() > 0 {
            assert(grid.bleeds(frontier[0].x as int, frontier[0].y as int));
        } else {
            assert forall|x: int, y: int| !#[trigger] grid.bleeds(x, y) by {
                if grid.bleeds(x, y) {
                    assert(listed(frontier, x, y));
                }
            }
        }
    }

    /// After a wave the pixels queued are those that bleed in the next one,
    /// and the marks go with the image as the wave left it.
    proof fn lemma_wave_tracked(
        bleeder: AlphaBleeder,
        grid: Grid,
        frontier: Seq<Position>,
        next: Seq<Position>,
    )
        requires
            bleeder.fits(grid),
            grid.holds(bleeder.pending()),
            grid.bleeds_at(frontier),
            queued(grid, frontier, frontier.len() as int, next),
            bleeder.marks_cover(grid, next),
            bleeder.marked_beside(grid, frontier, frontier.len() as int),
        ensures
            bleeder.tracks(grid.wave(), next),
    {
        let after = grid.wave();
        assert forall|u: int, v: int| after.contains(u, v) implies #[trigger] after.at(u, v)
            == grid.wave_at(u, v) by {
            lemma_wave_at(grid, u, v);
        }
        assert forall|x: int, y: int| #[trigger] after.bleeds(x, y) implies listed(next, x, y) by {
            lemma_tally_counts(after, x, y);
            let (u, v) = choose|u: int, v: int|
                adjacent(x, y, u, v) && #[trigger] after.opaque_at(u, v);
            assert(after.at(u, v) == grid.wave_at(u, v));
            assert(after.at(x, y) == grid.wave_at(x, y));
            if grid.opaque_at(u, v) {
                lemma_tally_counts(grid, x, y);
            } else {
                assert(grid.bleeds(u, v));
                let j = choose|j: int|
                    0 <= j < frontier.len() && (#[trigger] frontier[j]).x == u && frontier[j].y
                        == v;
                assert(bleeder.processed(x, y));
            }
        }
        assert forall|k: int| 0 <= k < next.len() implies after.bleeds(
            (#[trigger] next[k]).x as int,
            next[k].y as int,
        ) by {
            let x = next[k].x as int;
            let y = next[k].y as int;
            let j = choose|j: int|
                0 <= j < frontier.len() && adjacent(
                    (#[trigger] frontier[j]).x as int,
                    frontier[j].y as int,
                    x,
                    y,
                );
            let u = frontier[j].x as int;
            let v = frontier[j].y as int;
            assert(after.at(u, v) == grid.wave_at(u, v));
            assert(after.at(x, y) == grid.wave_at(x, y));
            assert(after.opaque_at(u, v));
            lemma_tally_counts(after, x, y);
        }
        assert forall|x: int, y: int| after.contains(x, y) implies (#[trigger] bleeder.processed(
            x,
            y,
        ) <==> after.opaque_at(x, y) || after.bleeds(x, y) || listed(
            Seq::<Position>::empty(),
            x,
            y,
        )) by {
            assert(after.at(x, y) == grid.wave_at(x, y));
            if listed(next, x, y) {
                let k = choose|k: int|
                    0 <= k < next.len() && (#[trigger] next[k]).x == x && next[k].y == y;
                assert(after.bleeds(next[k].x as int, next[k].y as int));
            }
        }
    }
}

} // verus!
