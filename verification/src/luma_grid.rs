//! The luminance sample grid: a grayscale image as exact fractions.

use crate::error::DitherError;
use vstd::prelude::*;

verus! {

/// A grayscale image as a mathematical value: `width * height` samples in
/// row-major order, each the numerator of a luminance over `scale`.
pub struct LumaField {
    pub width: nat,
    pub height: nat,
    pub scale: nat,
    pub samples: Seq<nat>,
}

impl LumaField {
    /// There is one sample for each pixel, and each luminance lies in `[0, 1]`.
    pub open spec fn wf(self) -> bool {
        &&& self.samples.len() == self.width * self.height
        &&& self.scale > 0
        &&& forall|k: int| 0 <= k < self.samples.len() ==> #[trigger] self.samples[k] <= self.scale
    }

    /// The sample of the pixel in column `x` of row `y`.
    pub open spec fn at(self, x: nat, y: nat) -> nat {
        self.samples[(y * self.width + x) as int]
    }

    /// Every luminance of the image is `sample / scale`.
    pub open spec fn uniform(self, sample: nat) -> bool {
        forall|k: int| 0 <= k < self.samples.len() ==> #[trigger] self.samples[k] == sample
    }
}

/// Machine samples as naturals.
pub open spec fn sample_values(samples: Seq<u32>) -> Seq<nat> {
    Seq::new(samples.len(), |k: int| samples[k] as nat)
}

/// What a grid of the given parts holds.
pub open spec fn field_of(width: usize, height: usize, scale: u32, samples: Seq<u32>) -> LumaField {
    LumaField {
        width: width as nat,
        height: height as nat,
        scale: scale as nat,
        samples: sample_values(samples),
    }
}

/// A grayscale image: `width * height` luminance samples in row-major
/// order. A sample `s` stands for the luminance `s / scale`.
#[derive(Debug, PartialEq)]
pub struct LumaGrid {
    width: usize,
    height: usize,
    scale: u32,
    samples: Vec<u32>,
}

impl View for LumaGrid {
    type V = LumaField;

    /// The dimensions, the scale and the samples as naturals.
    closed spec fn view(&self) -> LumaField {
        field_of(self.width, self.height, self.scale, self.samples@)
    }
}

impl LumaGrid {
    /// A grid holds one sample for each of its pixels, and none above its
    /// scale, which is positive.
    #[verifier::type_invariant]
    pub open spec fn wf(&self) -> bool {
        self@.wf()
    }

    /// Builds a grid from row-major samples.
    ///
    /// The sample count must be `width * height`, else the dimensions are
    /// reported as mismatched. With the count right, the scale must be
    /// positive and no sample may exceed it, else a parameter is reported
    /// as invalid.
    pub fn new(width: usize, height: usize, scale: u32, samples: Vec<u32>) -> (made: Result<
        LumaGrid,
        DitherError,
    >)
        ensures
            made is Ok <==> field_of(width, height, scale, samples@).wf(),
            made matches Ok(grid) ==> grid@ == field_of(width, height, scale, samples@),
            made matches Err(e) ==> e == if samples@.len() != width * height {
                DitherError::DimensionMismatch
            } else {
                DitherError::InvalidParameter
            },
    {
        let ghost field = field_of(width, height, scale, samples@);
        let count: usize = samples.len();
        let fits: bool = match width.checked_mul(height) {
            Some(pixels) => pixels == count,
            None => false,
        };
        if !fits {
            return Err(DitherError::DimensionMismatch);
        }
        if scale == 0 {
            return Err(DitherError::InvalidParameter);
        }
        let mut k: usize = 0;
        while k < samples.len()
            invariant
                k <= samples@.len(),
                samples@.len() == width * height,
                scale > 0,
                field == field_of(width, height, scale, samples@),
                forall|i: int| 0 <= i < k ==> #[trigger] field.samples[i] <= scale,
            decreases samples@.len() - k,
        {
            if samples[k] > scale {
                assert(field.samples[k as int] > scale);
                return Err(DitherError::InvalidParameter);
            }
            k = k + 1;
        }
        Ok(LumaGrid { width, height, scale, samples })
    }

    /// Builds a grid from parts that are known to fit together.
    pub(crate) fn from_parts(width: usize, height: usize, scale: u32, samples: Vec<u32>) -> (grid:
        LumaGrid)
        requires
            field_of(width, height, scale, samples@).wf(),
        ensures
            grid@ == field_of(width, height, scale, samples@),
    {
        LumaGrid { width, height, scale, samples }
    }

    /// The number of pixels in a row.
    pub fn width(&self) -> (width: usize)
        ensures
            width == self@.width,
    {
        self.width
    }

    /// The number of rows.
    pub fn height(&self) -> (height: usize)
        ensures
            height == self@.height,
    {
        self.height
    }

    /// The sample value that stands for full luminance.
    pub fn scale(&self) -> (scale: u32)
        ensures
            scale == self@.scale,
            scale > 0,
    {
        proof {
            use_type_invariant(self);
        }
        self.scale
    }

    /// The samples in row-major order.
    pub fn samples(&self) -> (samples: &Vec<u32>)
        ensures
            self@.samples == sample_values(samples@),
            samples@.len() == self@.width * self@.height,
    {
        proof {
            use_type_invariant(self);
        }
        &self.samples
    }

    /// The sample at column `x` of row `y`, if the pixel exists.
    pub fn get(&self, x: usize, y: usize) -> (sample: Option<u32>)
        ensures
            match sample {
                Some(value) => x < self@.width && y < self@.height && value == self@.at(
                    x as nat,
                    y as nat,
                ),
                None => x >= self@.width || y >= self@.height,
            },
    {
        if x >= self.width || y >= self.height {
            return None;
        }
        let count: usize = self.samples.len();
        proof {
            use_type_invariant(self);
            assert(self@.samples.len() == count);
            let w: int = self.width as int;
            let h: int = self.height as int;
            assert(0 <= y * w && y * w + x < w * h) by (nonlinear_arith)
                requires
                    0 <= x < w,
                    0 <= y < h,
            ;
        }
        Some(self.samples[y * self.width + x])
    }
}

} // verus!
