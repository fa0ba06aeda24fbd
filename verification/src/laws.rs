//! What holds of bleeding, whatever the image.

use vstd::prelude::*;
use crate::grid::{
    adjacent, lemma_flood, lemma_index_of_position, lemma_position_of_index, lemma_wave_counts_less,
    transparent_count, Grid,
};

use crate::neighborhood::{
    lemma_gathered_complete, lemma_gathered_sound, lemma_tally_counts, rank,
};
use crate::reach::{distance, lemma_wave_count, lemma_waves_reach, lemma_waves_shape};

verus! {

/// The pixels beside a pixel are those of the positions adjacent to it
/// inside the image: each of them once, with the pixel that stands there,
/// and nothing else. They are eight at most.
pub proof fn lemma_neighbors_exact(grid: Grid, x: int, y: int)
    requires
        grid.sized(),
    ensures
        grid.neighbors(x, y).len() <= 8,
        forall|i: int|
            0 <= i < grid.neighbors(x, y).len() ==> {
                let e = #[trigger] grid.neighbors(x, y)[i];
                &&& grid.contains(e.1 as int, e.2 as int)
                &&& adjacent(x, y, e.1 as int, e.2 as int)
                &&& e.0 == grid.at(e.1 as int, e.2 as int)
            },
        forall|i: int, j: int|
            0 <= i < j < grid.neighbors(x, y).len() ==> !((#[trigger] grid.neighbors(x, y)[i]).1
                == (#[trigger] grid.neighbors(x, y)[j]).1 && grid.neighbors(x, y)[i].2
                == grid.neighbors(x, y)[j].2),
        forall|u: int, v: int|
            adjacent(x, y, u, v) && #[trigger] grid.contains(u, v) ==> exists|i: int|
                0 <= i < grid.neighbors(x, y).len() && #[trigger] grid.neighbors(x, y)[i] == (
                    grid.at(u, v),
                    u as u32,
                    v as u32,
                ),
{
    let found = grid.neighbors(x, y);
    lemma_gathered_sound(grid, x, y, 9);
    assert forall|i: int, j: int| 0 <= i < j < found.len() implies !((#[trigger] found[i]).1
        == (#[trigger] found[j]).1 && found[i].2 == found[j].2) by {
        assert(rank(x, y, found[i].1 as int, found[i].2 as int) < rank(
            x,
            y,
            found[j].1 as int,
            found[j].2 as int,
        ));
    }
    assert forall|u: int, v: int| adjacent(x, y, u, v) && #[trigger] grid.contains(
        u,
        v,
    ) implies exists|i: int|
        0 <= i < found.len() && #[trigger] found[i] == (grid.at(u, v), u as u32, v as u32) by {
        lemma_gathered_complete(grid, x, y, 9, u, v);
    }
}

/// Bleeding keeps the size of the image and the alpha of every pixel.
pub proof fn lemma_bleed_keeps_alpha(grid: Grid)
    requires
        grid.wf(),
    ensures
        grid.bleed().wf(),
        grid.bleed().width == grid.width,
        grid.bleed().height == grid.height,
        forall|i: int|
            0 <= i < grid.pixels.len() ==> (#[trigger] grid.bleed().pixels[i]).a
                == grid.pixels[i].a,
{
}

/// Bleeding leaves every opaque pixel as it is, colour and alpha.
pub proof fn lemma_bleed_keeps_opaque(grid: Grid)
    requires
        grid.wf(),
    ensures
        forall|i: int|
            0 <= i < grid.pixels.len() && !grid.pixels[i].transparent()
                ==> #[trigger] grid.bleed().pixels[i] == grid.pixels[i],
{
    lemma_flood(grid);
}

/// An image whose pixels are all opaque, or all transparent, takes no wave.
pub proof fn lemma_uniform_settled(grid: Grid)
    requires
        grid.wf(),
        grid.uniform(),
    ensures
        grid.settled(),
        grid.wave_count() == 0,
{
    if forall|i: int| 0 <= i < grid.pixels.len() ==> !(#[trigger] grid.pixels[i]).transparent() {
        assert forall|x: int, y: int| !#[trigger] grid.bleeds(x, y) by {
            if grid.contains(x, y) {
                lemma_index_of_position(grid.width, grid.height, x, y);
            }
        }
    } else {
        assert forall|x: int, y: int| !#[trigger] grid.bleeds(x, y) by {
            assert forall|u: int, v: int| !#[trigger] grid.opaque_at(u, v) by {
                if grid.contains(u, v) {
                    lemma_index_of_position(grid.width, grid.height, u, v);
                }
            }
            lemma_tally_counts(grid, x, y);
        }
    }
}

/// An image whose pixels are all opaque, or all transparent, is left as it
/// is.
pub proof fn lemma_bleed_uniform(grid: Grid)
    requires
        grid.wf(),
        grid.uniform(),
    ensures
        grid.bleed() == grid,
{
    lemma_uniform_settled(grid);
    assert(grid.flood() == grid);
    assert(grid.bleed().pixels =~= grid.pixels);
}

/// Two images of one size are alike when their pixels have the same alpha
/// and their opaque pixels the same colour: they differ at most in the
/// colour of transparent pixels.
pub open spec fn alike(a: Grid, b: Grid) -> bool {
    &&& a.wf()
    &&& b.wf()
    &&& a.width == b.width
    &&& a.height == b.height
    &&& forall|i: int|
        0 <= i < a.pixels.len() ==> (#[trigger] a.pixels[i]).a == b.pixels[i].a && (
        !a.pixels[i].transparent() ==> a.pixels[i] == b.pixels[i])
}

/// A wave reads only alpha and the colour of opaque pixels: on images that
/// are alike the same pixels bleed, and the waves leave images that are
/// alike.
pub proof fn lemma_wave_alike(a: Grid, b: Grid)
    requires
        alike(a, b),
    ensures
        alike(a.wave(), b.wave()),
        forall|x: int, y: int| a.bleeds(x, y) == b.bleeds(x, y),
        a.settled() == b.settled(),
{
    assert forall|x: int, y: int| #[trigger] a.share(x, y) == b.share(x, y) by {
        if a.contains(x, y) {
            lemma_index_of_position(a.width, a.height, x, y);
            assert(a.pixels[y * a.width + x].a == b.pixels[y * a.width + x].a);
        }
    }
    assert forall|x: int, y: int| a.bleeds(x, y) == b.bleeds(x, y) by {
        assert(a.tally_around(x, y) == b.tally_around(x, y));
        if a.contains(x, y) {
            lemma_index_of_position(a.width, a.height, x, y);
            assert(a.pixels[y * a.width + x].a == b.pixels[y * a.width + x].a);
        }
    }
    assert forall|i: int| 0 <= i < a.pixels.len() implies (#[trigger] a.wave().pixels[i]).a
        == b.wave().pixels[i].a && (!a.wave().pixels[i].transparent() ==> a.wave().pixels[i]
        == b.wave().pixels[i]) by {
        lemma_position_of_index(a.width, a.height, i);
        let x = i % (a.width as int);
        let y = i / (a.width as int);
        assert(a.tally_around(x, y) == b.tally_around(x, y));
        assert(a.bleeds(x, y) == b.bleeds(x, y));
        assert(a.pixels[i].a == b.pixels[i].a);
    }
    if a.settled() {
        assert forall|x: int, y: int| !#[trigger] b.bleeds(x, y) by {
            assert(!a.bleeds(x, y));
        }
    }
    if b.settled() {
        assert forall|x: int, y: int| !#[trigger] a.bleeds(x, y) by {
            assert(!b.bleeds(x, y));
        }
    }
}

/// On images that are alike the waves end in images that are alike.
pub proof fn lemma_flood_alike(a: Grid, b: Grid)
    requires
        alike(a, b),
    ensures
        alike(a.flood(), b.flood()),
    decreases transparent_count(a.pixels),
{
    lemma_wave_alike(a, b);
    if !a.settled() {
        let (x, y) = choose|x: int, y: int| a.bleeds(x, y);
        lemma_wave_counts_less(a, x, y);
        lemma_flood_alike(a.wave(), b.wave());
    }
}

/// Bleeding reads only alpha and the colour of opaque pixels: images that
/// are alike have the same colour, after bleeding, in every pixel that was
/// coloured.
pub proof fn lemma_bleed_alike(a: Grid, b: Grid)
    requires
        alike(a, b),
    ensures
        alike(a.bleed(), b.bleed()),
        forall|i: int|
            0 <= i < a.pixels.len() && !a.flood().pixels[i].transparent()
                ==> #[trigger] a.bleed().pixels[i] == b.bleed().pixels[i],
{
    lemma_flood(a);
    lemma_flood(b);
    lemma_flood_alike(a, b);
    assert forall|i: int| 0 <= i < a.pixels.len() implies (#[trigger] a.bleed().pixels[i]).a
        == b.bleed().pixels[i].a && (!a.bleed().pixels[i].transparent() ==> a.bleed().pixels[i]
        == b.bleed().pixels[i]) by {
        assert(a.pixels[i].a == b.pixels[i].a);
        assert(a.flood().pixels[i].a == b.flood().pixels[i].a);
    }
    assert forall|i: int|
        0 <= i < a.pixels.len() && !a.flood().pixels[i].transparent() implies #[trigger]
        a.bleed().pixels[i] == b.bleed().pixels[i] by {
        assert(a.pixels[i].a == b.pixels[i].a);
        assert(a.flood().pixels[i].a == b.flood().pixels[i].a);
    }
}

/// Bleeding what was bled changes nothing.
pub proof fn lemma_bleed_idempotent(grid: Grid)
    requires
        grid.wf(),
    ensures
        grid.bleed().bleed() == grid.bleed(),
{
    let bled = grid.bleed();
    lemma_flood(grid);
    lemma_flood(bled);
    assert(alike(bled, grid));
    lemma_flood_alike(bled, grid);
    assert forall|i: int| 0 <= i < bled.pixels.len() implies #[trigger] bled.bleed().pixels[i]
        == bled.pixels[i] by {
        assert(bled.pixels[i].a == grid.pixels[i].a);
        assert(bled.flood().pixels[i].a == grid.flood().pixels[i].a);
        if grid.flood().pixels[i].transparent() {
            assert(bled.flood().pixels[i] == bled.pixels[i]);
        } else {
            assert(bled.flood().pixels[i] == grid.flood().pixels[i]);
        }
    }
    assert(bled.bleed().pixels =~= bled.pixels);
}

/// Between a pixel that is not opaque and one that is, some pixel bleeds.
pub proof fn lemma_bleeds_between(grid: Grid, x: int, y: int, u: int, v: int)
    requires
        grid.wf(),
        grid.contains(x, y),
        !grid.opaque_at(x, y),
        grid.opaque_at(u, v),
    ensures
        !grid.settled(),
    decreases distance(x, y, u, v),
{
    let p = if u < x {
        x - 1
    } else if u > x {
        x + 1
    } else {
        x
    };
    let q = if v < y {
        y - 1
    } else if v > y {
        y + 1
    } else {
        y
    };
    assert(adjacent(x, y, p, q));
    if grid.opaque_at(p, q) {
        lemma_tally_counts(grid, x, y);
        assert(grid.bleeds(x, y));
    } else {
        lemma_bleeds_between(grid, p, q, u, v);
    }
}

/// Where an image has an opaque pixel, the waves end when every pixel has
/// been reached: it takes at most `steps` waves exactly when every pixel
/// lies within `steps` steps of an opaque one. So the number of waves is
/// the greatest number of steps from a pixel to the opaque pixel nearest
/// to it.
pub proof fn lemma_wave_count_is_reach(grid: Grid, steps: nat)
    requires
        grid.wf(),
        exists|u: int, v: int| grid.opaque_at(u, v),
    ensures
        grid.wave_count() <= steps <==> forall|x: int, y: int|
            grid.contains(x, y) ==> #[trigger] grid.reached(steps as int, x, y),
{
    let after = grid.waves(steps);
    lemma_waves_shape(grid, steps);
    lemma_wave_count(grid, steps);
    if forall|x: int, y: int| grid.contains(x, y) ==> #[trigger] grid.reached(steps as int, x, y) {
        assert forall|x: int, y: int| !#[trigger] after.bleeds(x, y) by {
            if after.contains(x, y) {
                assert(grid.reached(steps as int, x, y));
                lemma_waves_reach(grid, steps, x, y);
            }
        }
    }
    if after.settled() {
        let (u, v) = choose|u: int, v: int| grid.opaque_at(u, v);
        lemma_waves_reach(grid, steps, u, v);
        assert(grid.opaque_at(u, v) && distance(u, v, u, v) <= steps);
        assert forall|x: int, y: int| grid.contains(x, y) implies #[trigger] grid.reached(
            steps as int,
            x,
            y,
        ) by {
            lemma_waves_reach(grid, steps, x, y);
            if !after.opaque_at(x, y) {
                lemma_bleeds_between(after, x, y, u, v);
            }
        }
    }
}

/// Where an image has an opaque pixel, bleeding colours every transparent
/// pixel: the waves leave no pixel transparent.
pub proof fn lemma_flood_colours_all(grid: Grid)
    requires
        grid.wf(),
        exists|u: int, v: int| grid.opaque_at(u, v),
    ensures
        forall|i: int|
            0 <= i < grid.pixels.len() ==> !(#[trigger] grid.flood().pixels[i]).transparent(),
{
    lemma_flood(grid);
    let after = grid.flood();
    let (u, v) = choose|u: int, v: int| grid.opaque_at(u, v);
    lemma_index_of_position(grid.width, grid.height, u, v);
    assert(after.opaque_at(u, v));
    assert forall|i: int| 0 <= i < grid.pixels.len() implies !(#[trigger]
    after.pixels[i]).transparent() by {
        lemma_position_of_index(grid.width, grid.height, i);
        let x = i % (grid.width as int);
        let y = i / (grid.width as int);
        if !after.opaque_at(x, y) {
            lemma_bleeds_between(after, x, y, u, v);
        }
    }
}

/// The column of a position if `upright` is false, its row if it is true.
pub open spec fn along(upright: bool, x: int, y: int) -> int {
    if upright {
        y
    } else {
        x
    }
}

/// A band of transparent pixels between two opaque edges: the pixels are
/// transparent from row `from` up to, not including, row `to`, and opaque
/// above and below, where both edges have a row at least; or the same of
/// columns, if `upright` is false.
pub open spec fn band(grid: Grid, upright: bool, from: int, to: int) -> bool {
    &&& grid.wf()
    &&& grid.width >= 1
    &&& grid.height >= 1
    &&& 1 <= from <= to < along(upright, grid.width as int, grid.height as int)
    &&& forall|x: int, y: int|
        grid.contains(x, y) ==> ((#[trigger] grid.at(x, y)).transparent() <==> from <= along(
            upright,
            x,
            y,
        ) < to)
}

/// A band is done within `steps` waves exactly when it is at most twice as
/// wide as that.
pub proof fn lemma_band_steps(grid: Grid, upright: bool, from: int, to: int, steps: nat)
    requires
        band(grid, upright, from, to),
    ensures
        grid.wave_count() <= steps <==> to - from <= 2 * steps,
{
    assert(grid.opaque_at(0, 0));
    lemma_wave_count_is_reach(grid, steps);
    if to - from <= 2 * steps {
        assert forall|x: int, y: int| grid.contains(x, y) implies #[trigger] grid.reached(
            steps as int,
            x,
            y,
        ) by {
            let c = along(upright, x, y);
            let (u, v) = if !(from <= c < to) {
                (x, y)
            } else if c - from + 1 <= steps {
                if upright {
                    (x, from - 1)
                } else {
                    (from - 1, y)
                }
            } else {
                if upright {
                    (x, to)
                } else {
                    (to, y)
                }
            };
            assert(grid.contains(u, v));
            assert(!grid.at(u, v).transparent());
            assert(grid.opaque_at(u, v) && distance(x, y, u, v) <= steps);
        }
    } else {
        let (x, y) = if upright {
            (0int, from + steps)
        } else {
            (from + steps, 0int)
        };
        assert(grid.contains(x, y));
        if grid.reached(steps as int, x, y) {
            let (u, v) = choose|u: int, v: int|
                #[trigger] grid.opaque_at(u, v) && distance(x, y, u, v) <= steps;
            assert(!grid.at(u, v).transparent());
            assert(!(from <= along(upright, u, v) < to));
        }
    }
}

/// A band that is `n` pixels wide takes `n / 2` waves, rounded up.
pub proof fn lemma_band_wave_count(grid: Grid, upright: bool, from: int, to: int)
    requires
        band(grid, upright, from, to),
    ensures
        grid.wave_count() == (to - from + 1) / 2,
{
    lemma_band_steps(grid, upright, from, to, grid.wave_count());
    lemma_band_steps(grid, upright, from, to, ((to - from + 1) / 2) as nat);
}

} // verus!
