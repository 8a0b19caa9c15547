//! Ordered dithering: each pixel is compared with the threshold that the
//! tiled Bayer matrix holds at its coordinates.

use crate::luma_grid::{field_of, sample_values, LumaField, LumaGrid};
use crate::threshold_map::{lemma_sample_is_rank, ThresholdMap};
use vstd::arithmetic::div_mod::lemma_fundamental_div_mod_converse;
use vstd::prelude::*;

verus! {

/// Whether the luminance `luma / scale` is strictly greater than the
/// threshold `rank / cells`. The fractions are compared by cross
/// multiplication, so equal values do not exceed one another.
pub open spec fn luminance_exceeds(luma: nat, scale: nat, rank: nat, cells: nat) -> bool {
    luma * cells > rank * scale
}

/// Whether a pixel of luminance `luma / scale` at `(x, y)` is switched on.
pub open spec fn pixel_on(map: ThresholdMap, luma: nat, scale: nat, x: nat, y: nat) -> bool {
    luminance_exceeds(luma, scale, map.spec_sample(x, y), map.spec_denominator())
}

/// The sample that stands for a pixel after dithering: full luminance
/// where the pixel is on, none where it is off.
pub open spec fn binary_sample(on: bool, scale: nat) -> nat {
    if on {
        scale
    } else {
        0
    }
}

/// The sample that dithering writes at row-major position `k`, which is
/// column `k % width` of row `k / width`.
pub open spec fn dithered_sample(field: LumaField, map: ThresholdMap, k: int) -> nat {
    binary_sample(
        pixel_on(
            map,
            field.samples[k],
            field.scale,
            (k % field.width as int) as nat,
            (k / field.width as int) as nat,
        ),
        field.scale,
    )
}

/// The binary image that ordered dithering makes of `field`.
pub open spec fn dither_field(field: LumaField, map: ThresholdMap) -> LumaField {
    LumaField {
        width: field.width,
        height: field.height,
        scale: field.scale,
        samples: Seq::new(field.samples.len(), |k: int| dithered_sample(field, map, k)),
    }
}

/// Tests pixel luma against threshold map: the pixel is on exactly when
/// `luma / scale` is strictly greater than the threshold sampled at `(x, y)`.
pub fn test_pixel(map: &ThresholdMap, luma: u32, scale: u32, x: usize, y: usize) -> (on: bool)
    ensures
        on == pixel_on(*map, luma as nat, scale as nat, x as nat, y as nat),
        on <==> luma * map.spec_denominator() > map.spec_sample(x as nat, y as nat) * scale,
{
    let rank: u32 = map.sample(x, y);
    let cells: u32 = map.denominator();
    proof {
        assert(luma * cells <= 0xffff_ffff * 0x100_0000 && rank * scale <= 0x100_0000
            * 0xffff_ffff) by (nonlinear_arith)
            requires
                luma <= 0xffff_ffff,
                scale <= 0xffff_ffff,
                cells <= 0x100_0000,
                rank < cells,
        ;
    }
    (luma as u64) * (cells as u64) > (rank as u64) * (scale as u64)
}

/// Trait which enables ordered dither operation.
pub trait OrderedDither: Sized {
    /// The image as a field of luminance fractions.
    spec fn luminance(&self) -> LumaField;

    /// Performs an ordered dither on a copy of self, returning the result:
    /// an image of the same dimensions in which a pixel has full luminance
    /// if its luminance was strictly above the threshold at its
    /// coordinates, and none otherwise.
    ///
    /// # Arguments
    ///
    /// * `threshold_map` - Threshold map to use for dithering
    ///
    fn ordered_dither(&self, threshold_map: ThresholdMap) -> (dithered: Self)
        ensures
            dithered.luminance() == dither_field(self.luminance(), threshold_map),
    ;
}

impl OrderedDither for LumaGrid {
    open spec fn luminance(&self) -> LumaField {
        self@
    }

    fn ordered_dither(&self, threshold_map: ThresholdMap) -> (dithered: Self)
        ensures
            dithered@.wf(),
            forall|x: nat, y: nat|
                x < self@.width && y < self@.height ==> #[trigger] dithered@.at(x, y)
                    == binary_sample(
                    pixel_on(threshold_map, self@.at(x, y), self@.scale, x, y),
                    self@.scale,
                ),
    {
        let width: usize = self.width();
        let height: usize = self.height();
        let scale: u32 = self.scale();
        let samples: &Vec<u32> = self.samples();
        let count: usize = samples.len();
        proof {
            use_type_invariant(self);
        }
        let mut copy: Vec<u32> = Vec::with_capacity(count);
        let mut i: usize = 0;
        while i < count
            invariant
                i <= count,
                count == samples@.len(),
                self@.samples == sample_values(samples@),
                width == self@.width,
                height == self@.height,
                scale == self@.scale,
                self@.wf(),
                copy@.len() == i,
                forall|k: int|
                    0 <= k < i ==> #[trigger] copy@[k] == dithered_sample(
                        self@,
                        threshold_map,
                        k,
                    ),
            decreases count - i,
        {
            proof {
                if width == 0 {
                    assert(self@.width * self@.height == 0) by (nonlinear_arith)
                        requires
                            self@.width == 0,
                    ;
                }
            }
            let on: bool = test_pixel(&threshold_map, samples[i], scale, i % width, i / width);
            copy.push(if on { scale } else { 0 });
            i = i + 1;
        }
        proof {
            let field: LumaField = dither_field(self@, threshold_map);
            assert(self@.samples.len() == count);
            assert(sample_values(copy@) =~= field.samples);
            assert(field_of(width, height, scale, copy@) == field);
            assert forall|x: nat, y: nat|
                x < self@.width && y < self@.height implies #[trigger] field.at(x, y)
                == binary_sample(
                pixel_on(threshold_map, self@.at(x, y), self@.scale, x, y),
                self@.scale,
            ) by {
                lemma_row_major(self@, x, y);
                assert(field.at(x, y) == dithered_sample(
                    self@,
                    threshold_map,
                    (y * self@.width + x) as int,
                ));
            }
        }
        LumaGrid::from_parts(width, height, scale, copy)
    }
}

/// In a well-formed field the pixel `(x, y)` lies at position
/// `y * width + x`, and that position leads back to `(x, y)`.
pub proof fn lemma_row_major(field: LumaField, x: nat, y: nat)
    requires
        field.wf(),
        x < field.width,
        y < field.height,
    ensures
        0 <= y * field.width + x < field.samples.len(),
        ((y * field.width + x) as int) % (field.width as int) == x,
        ((y * field.width + x) as int) / (field.width as int) == y,
{
    let w: int = field.width as int;
    let h: int = field.height as int;
    assert(0 <= y * w && y * w + x < w * h) by (nonlinear_arith)
        requires
            0 <= x < w,
            0 <= y < h,
    ;
    lemma_fundamental_div_mod_converse(y * w + x, w, y as int, x as int);
}

/// Dithering keeps the dimensions and the scale, and writes one of two
/// values to each pixel: full luminance where the pixel is strictly
/// brighter than its threshold, none where it is not.
pub proof fn lemma_dither_pixelwise(field: LumaField, map: ThresholdMap, x: nat, y: nat)
    requires
        field.wf(),
        x < field.width,
        y < field.height,
    ensures
        dither_field(field, map).wf(),
        dither_field(field, map).width == field.width,
        dither_field(field, map).height == field.height,
        dither_field(field, map).scale == field.scale,
        dither_field(field, map).at(x, y) == binary_sample(
            pixel_on(map, field.at(x, y), field.scale, x, y),
            field.scale,
        ),
        pixel_on(map, field.at(x, y), field.scale, x, y) ==> dither_field(field, map).at(x, y)
            == field.scale,
        !pixel_on(map, field.at(x, y), field.scale, x, y) ==> dither_field(field, map).at(x, y)
            == 0,
{
    lemma_row_major(field, x, y);
}

/// An image of full luminance dithers to an image of full luminance,
/// whatever the level of the map: every threshold is below one.
pub proof fn lemma_full_luminance_stays_on(field: LumaField, map: ThresholdMap)
    requires
        field.wf(),
        map.wf(),
        field.uniform(field.scale),
    ensures
        dither_field(field, map).uniform(field.scale),
{
    assert forall|k: int| 0 <= k < field.samples.len() implies dithered_sample(field, map, k)
        == field.scale by {
        let x: nat = (k % field.width as int) as nat;
        let y: nat = (k / field.width as int) as nat;
        lemma_sample_is_rank(map, x, y);
        let rank: nat = map.spec_sample(x, y);
        let cells: nat = map.spec_denominator();
        let scale: nat = field.scale;
        assert(scale * cells > rank * scale) by (nonlinear_arith)
            requires
                scale > 0,
                rank < cells,
        ;
    }
}

/// An image of no luminance dithers to an image of no luminance: no
/// threshold is below zero.
pub proof fn lemma_zero_luminance_stays_off(field: LumaField, map: ThresholdMap)
    requires
        field.uniform(0),
    ensures
        dither_field(field, map).uniform(0),
{
    assert forall|k: int| 0 <= k < field.samples.len() implies dithered_sample(field, map, k)
        == 0 by {
        let x: nat = (k % field.width as int) as nat;
        let y: nat = (k / field.width as int) as nat;
        let rank: nat = map.spec_sample(x, y);
        let scale: nat = field.scale;
        assert(rank * scale >= 0) by (nonlinear_arith);
        assert(0 * map.spec_denominator() == 0);
    }
}

/// Dithering a dithered image with the same map changes nothing.
pub proof fn lemma_dither_is_idempotent(field: LumaField, map: ThresholdMap)
    requires
        field.wf(),
        map.wf(),
    ensures
        dither_field(dither_field(field, map), map) == dither_field(field, map),
{
    let once: LumaField = dither_field(field, map);
    let twice: LumaField = dither_field(once, map);
    assert forall|k: int| 0 <= k < once.samples.len() implies twice.samples[k]
        == once.samples[k] by {
        let x: nat = (k % field.width as int) as nat;
        let y: nat = (k / field.width as int) as nat;
        lemma_sample_is_rank(map, x, y);
        let rank: nat = map.spec_sample(x, y);
        let cells: nat = map.spec_denominator();
        let scale: nat = field.scale;
        assert(scale * cells > rank * scale) by (nonlinear_arith)
            requires
                scale > 0,
                rank < cells,
        ;
        assert(rank * scale >= 0) by (nonlinear_arith);
        assert(0 * cells == 0);
    }
    assert(twice.samples =~= once.samples);
}

} // verus!
