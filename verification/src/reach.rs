//! How far the waves reach: each wave carries colour one step further from
//! the opaque pixels, in all eight directions.

use vstd::prelude::*;
use crate::grid::{
    adjacent, lemma_position_of_index, lemma_wave_at, lemma_wave_counts_less, transparent_count,
    Grid,
};
use crate::neighborhood::lemma_tally_counts;

verus! {

/// The number of steps from column `x` of row `y` to column `u` of row `v`,
/// where a step leads to an adjacent position.
pub open spec fn distance(x: int, y: int, u: int, v: int) -> int {
    let across = if x <= u {
        u - x
    } else {
        x - u
    };
    let down = if y <= v {
        v - y
    } else {
        y - v
    };
    if across <= down {
        down
    } else {
        across
    }
}

impl Grid {
    /// The image after `n` waves.
    pub open spec fn waves(self, n: nat) -> Grid
        decreases n,
    {
        if n == 0 {
            self
        } else {
            self.wave().waves((n - 1) as nat)
        }
    }

    /// The number of waves after which no pixel bleeds.
    pub open spec fn wave_count(self) -> nat
        decreases transparent_count(self.pixels),
        when self.wf()
        via Self::wave_count_decreases
    {
        if self.settled() {
            0
        } else {
            1 + self.wave().wave_count()
        }
    }

    #[via_fn]
    proof fn wave_count_decreases(self) {
        if !self.settled() {
            let (x, y) = choose|x: int, y: int| self.bleeds(x, y);
            lemma_wave_counts_less(self, x, y);
        }
    }

    /// Whether an opaque pixel lies within `steps` steps of column `x` of
    /// row `y`.
    pub open spec fn reached(self, steps: int, x: int, y: int) -> bool {
        exists|u: int, v: int| #[trigger] self.opaque_at(u, v) && distance(x, y, u, v) <= steps
    }
}

/// Waves keep the size of the image.
pub proof fn lemma_waves_shape(grid: Grid, n: nat)
    requires
        grid.wf(),
    ensures
        grid.waves(n).wf(),
        grid.waves(n).width == grid.width,
        grid.waves(n).height == grid.height,
    decreases n,
{
    if n > 0 {
        lemma_waves_shape(grid.wave(), (n - 1) as nat);
    }
}

/// One more wave at the end is one more wave at the start.
pub proof fn lemma_waves_step(grid: Grid, n: nat)
    requires
        grid.wf(),
    ensures
        grid.waves(n + 1) == grid.waves(n).wave(),
    decreases n,
{
    assert(grid.waves(n + 1) == grid.wave().waves(n));
    if n > 0 {
        lemma_waves_step(grid.wave(), (n - 1) as nat);
        assert(grid.wave().waves(((n - 1) + 1) as nat) == grid.wave().waves(n));
    } else {
        assert(grid.wave().waves(0) == grid.wave());
    }
}

/// Where no pixel bleeds, a wave changes nothing.
pub proof fn lemma_settled_wave(grid: Grid)
    requires
        grid.wf(),
        grid.settled(),
    ensures
        grid.wave() == grid,
{
    assert forall|i: int| 0 <= i < grid.pixels.len() implies grid.wave().pixels[i]
        == grid.pixels[i] by {
        lemma_position_of_index(grid.width, grid.height, i);
        let x = i % (grid.width as int);
        let y = i / (grid.width as int);
        assert(!grid.bleeds(x, y));
    }
    assert(grid.wave().pixels =~= grid.pixels);
}

/// The waves that it takes are the first after which no pixel bleeds, and
/// they leave what `flood` says.
pub proof fn lemma_wave_count(grid: Grid, n: nat)
    requires
        grid.wf(),
    ensures
        grid.waves(n).settled() <==> grid.wave_count() <= n,
        grid.flood() == grid.waves(grid.wave_count()),
        grid.wave_count() <= n ==> grid.waves(n) == grid.flood(),
    decreases n,
{
    lemma_flood_waves(grid);
    if grid.settled() {
        lemma_settled_waves(grid, n);
    } else if n > 0 {
        lemma_wave_count(grid.wave(), (n - 1) as nat);
    }
}

/// The waves that it takes leave what `flood` says.
pub proof fn lemma_flood_waves(grid: Grid)
    requires
        grid.wf(),
    ensures
        grid.flood() == grid.waves(grid.wave_count()),
    decreases transparent_count(grid.pixels),
{
    if !grid.settled() {
        let (x, y) = choose|x: int, y: int| grid.bleeds(x, y);
        lemma_wave_counts_less(grid, x, y);
        lemma_flood_waves(grid.wave());
    }
}

/// Where no pixel bleeds, no number of waves changes anything.
pub proof fn lemma_settled_waves(grid: Grid, n: nat)
    requires
        grid.wf(),
        grid.settled(),
    ensures
        grid.waves(n) == grid,
    decreases n,
{
    if n > 0 {
        lemma_settled_wave(grid);
        lemma_settled_waves(grid, (n - 1) as nat);
    }
}

/// After a wave a pixel is opaque exactly when it was, or when an opaque
/// pixel lay beside it; a pixel of which neither holds is as it was.
pub proof fn lemma_wave_spreads(grid: Grid, x: int, y: int)
    requires
        grid.wf(),
        grid.contains(x, y),
    ensures
        grid.wave().opaque_at(x, y) <==> grid.opaque_at(x, y) || exists|u: int, v: int|
            adjacent(x, y, u, v) && #[trigger] grid.opaque_at(u, v),
        !grid.wave().opaque_at(x, y) ==> grid.wave().at(x, y) == grid.at(x, y),
{
    lemma_wave_at(grid, x, y);
    lemma_tally_counts(grid, x, y);
}

/// After `n` waves the opaque pixels are those within `n` steps of a pixel
/// that was opaque at the start, and the others are as they were.
pub proof fn lemma_waves_reach(grid: Grid, n: nat, x: int, y: int)
    requires
        grid.wf(),
        grid.contains(x, y),
    ensures
        grid.waves(n).opaque_at(x, y) <==> grid.reached(n as int, x, y),
        !grid.reached(n as int, x, y) ==> grid.waves(n).at(x, y) == grid.at(x, y),
    decreases n,
{
    if n == 0 {
        if grid.opaque_at(x, y) {
            assert(distance(x, y, x, y) <= 0);
        }
    } else {
        let m = (n - 1) as nat;
        let before = grid.waves(m);
        lemma_waves_shape(grid, m);
        lemma_waves_step(grid, m);
        lemma_wave_spreads(before, x, y);
        lemma_waves_reach(grid, m, x, y);
        if before.opaque_at(x, y) {
            let (u, v) = choose|u: int, v: int|
                #[trigger] grid.opaque_at(u, v) && distance(x, y, u, v) <= m;
            assert(grid.opaque_at(u, v) && distance(x, y, u, v) <= n);
        }
        if exists|p: int, q: int| adjacent(x, y, p, q) && #[trigger] before.opaque_at(p, q) {
            let (p, q) = choose|p: int, q: int|
                adjacent(x, y, p, q) && #[trigger] before.opaque_at(p, q);
            lemma_waves_reach(grid, m, p, q);
            let (u, v) = choose|u: int, v: int|
                #[trigger] grid.opaque_at(u, v) && distance(p, q, u, v) <= m;
            assert(grid.opaque_at(u, v) && distance(x, y, u, v) <= n);
        }
        if grid.reached(n as int, x, y) {
            let (u, v) = choose|u: int, v: int|
                #[trigger] grid.opaque_at(u, v) && distance(x, y, u, v) <= n;
            let p = if u < x {
                x - 1
            } else if u > x {
                x + 1
            } else {
                x
            };
            let q = if v < y {
                y - 1
            } else if v > y {
                y + 1
            } else {
                y
            };
            assert(grid.contains(p, q));
            assert(grid.opaque_at(u, v) && distance(p, q, u, v) <= m);
            lemma_waves_reach(grid, m, p, q);
            assert(before.opaque_at(p, q));
            if !(p == x && q == y) {
                assert(adjacent(x, y, p, q));
            }
        }
    }
}

} // verus!
