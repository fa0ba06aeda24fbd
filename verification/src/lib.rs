//! Alpha bleeding: colour is carried from the opaque parts of an RGBA image
//! into its transparent parts, so that resampling the image later does not
//! blend stray colours into its visible edges. Alpha is never changed.
//!
//! The work is done in waves. In each wave every transparent pixel that
//! touches an opaque one takes the mean colour of the opaque pixels around
//! it, and counts as opaque from then on; when a wave finds no such pixel,
//! every pixel gets back the alpha that it had.
//!
//! - [`raster`] holds the image in memory, in a buffer of the `image` crate.
//! - [`grid`] is the image as a mathematical value, with what a wave and
//!   what bleeding make of it; [`neighborhood`] lists and sums the pixels
//!   around a pixel; [`reach`] counts the waves.
//! - [`bleeder`] runs the waves, with the help of [`marks`].
//! - [`laws`] states what holds of bleeding whatever the image.

use vstd::prelude::*;

pub mod pixel;
pub mod grid;
pub mod marks;
pub mod neighborhood;
pub mod reach;
pub mod raster;
pub mod bleeder;
pub mod laws;

pub use crate::bleeder::AlphaBleeder;
pub use crate::marks::PixelMarks;
pub use crate::pixel::{Position, Rgba};
pub use crate::raster::Raster;

use crate::laws::{lemma_bleed_keeps_alpha, lemma_bleed_keeps_opaque, lemma_bleed_uniform};

verus! {

/// Bleeds `image` in place: every transparent pixel that the waves reach
/// from an opaque pixel takes the colour that they bring. The size of the
/// image, the alpha of every pixel and every opaque pixel stay as they are,
/// and so does all of an image whose pixels are all opaque or all
/// transparent.
pub fn alpha_bleeding(image: &mut Raster)
    ensures
        final(image)@ == old(image)@.bleed(),
        final(image).spare() == old(image).spare(),
        old(image)@.kept_by(final(image)@),
        old(image)@.uniform() ==> final(image)@ == old(image)@,
{
    let mut bleeder = AlphaBleeder::default();
    bleeder.execute(image);
    proof {
        lemma_bleed_keeps_alpha(old(image)@);
        lemma_bleed_keeps_opaque(old(image)@);
        if old(image)@.uniform() {
            lemma_bleed_uniform(old(image)@);
        }
    }
}

/// A bled copy of `source`, which stays as it is.
pub fn perform_alpha_bleeding_aux(source: &Raster) -> (target: Raster)
    ensures
        target@ == source@.bleed(),
        target.spare() == source.spare(),
        source@.kept_by(target@),
        source@.uniform() ==> target@ == source@,
{
    let mut target = source.clone();
    let mut bleeder = AlphaBleeder::default();
    bleeder.execute(&mut target);
    proof {
        lemma_bleed_keeps_alpha(source@);
        lemma_bleed_keeps_opaque(source@);
        if source@.uniform() {
            lemma_bleed_uniform(source@);
        }
    }
    target
}

} // verus!
