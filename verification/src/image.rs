//! Gray-scale images of single-precision samples.
//!
//! A sample is carried as its IEEE 754 binary32 bit pattern.

use vstd::prelude::*;

verus! {

/// A row-major grid of single-precision samples with a fixed width and
/// height.
#[derive(Debug, PartialEq, Eq)]
pub struct GrayFloatImage {
    width: usize,
    height: usize,
    samples: Vec<u32>,
}

impl View for GrayFloatImage {
    type V = Seq<u32>;

    /// The samples, row after row.
    closed spec fn view(&self) -> Seq<u32> {
        self.samples@
    }
}

impl Clone for GrayFloatImage {
    /// An image of the same shape over the same samples.
    fn clone(&self) -> (copy: GrayFloatImage)
        ensures
            copy.same_shape(self),
            copy@ == self@,
            copy.well_formed(),
    {
        proof {
            use_type_invariant(self);
        }
        let samples = self.samples.clone();
        assert(samples@ =~= self.samples@);
        GrayFloatImage { width: self.width, height: self.height, samples }
    }
}

impl GrayFloatImage {
    #[verifier::type_invariant]
    spec fn holds_every_sample(self) -> bool {
        self.samples@.len() == self.width * self.height
    }

    /// The number of samples in a row.
    pub closed spec fn spec_width(&self) -> usize {
        self.width
    }

    /// The number of rows.
    pub closed spec fn spec_height(&self) -> usize {
        self.height
    }

    /// There is one sample for each position of the grid.
    pub open spec fn well_formed(&self) -> bool {
        self@.len() == self.spec_width() * self.spec_height()
    }

    /// Two images have the same width and the same height.
    pub open spec fn same_shape(&self, other: &GrayFloatImage) -> bool {
        self.spec_width() == other.spec_width() && self.spec_height() == other.spec_height()
    }

    /// Every sample of the image is `sample`.
    pub open spec fn filled_with(&self, sample: u32) -> bool {
        forall|p: int| 0 <= p < self@.len() ==> self@[p] == sample
    }

    /// An image of the given shape whose samples are all positive zero.
    pub fn new(width: usize, height: usize) -> (image: GrayFloatImage)
        requires
            width * height <= usize::MAX,
        ensures
            image.spec_width() == width,
            image.spec_height() == height,
            image.well_formed(),
            image.filled_with(0),
    {
        let samples = vec![0u32; width * height];
        GrayFloatImage { width, height, samples }
    }

    /// An image of the given shape over the given samples, if there is
    /// exactly one sample for each position.
    pub fn from_samples(width: usize, height: usize, samples: Vec<u32>) -> (image: Option<
        GrayFloatImage,
    >)
        ensures
            image is Some <==> samples@.len() == width * height,
            image matches Some(built) ==> {
                &&& built.spec_width() == width
                &&& built.spec_height() == height
                &&& built@ == samples@
                &&& built.well_formed()
            },
    {
        let given = samples.len();
        match width.checked_mul(height) {
            Some(count) => {
                if given == count {
                    Some(GrayFloatImage { width, height, samples })
                } else {
                    None
                }
            },
            None => None,
        }
    }

    /// The number of samples in a row.
    #[verifier::when_used_as_spec(spec_width)]
    pub fn width(&self) -> (width: usize)
        ensures
            width == self.spec_width(),
            self.well_formed(),
    {
        proof {
            use_type_invariant(self);
        }
        self.width
    }

    /// The number of rows.
    #[verifier::when_used_as_spec(spec_height)]
    pub fn height(&self) -> (height: usize)
        ensures
            height == self.spec_height(),
            self.well_formed(),
    {
        proof {
            use_type_invariant(self);
        }
        self.height
    }

    /// The samples, row after row.
    pub fn samples(&self) -> (samples: &Vec<u32>)
        ensures
            samples@ == self@,
            self.well_formed(),
    {
        proof {
            use_type_invariant(self);
        }
        &self.samples
    }

    /// The sample in column `x` of row `y`.
    pub fn get(&self, x: usize, y: usize) -> (sample: u32)
        requires
            x < self.spec_width(),
            y < self.spec_height(),
        ensures
            self.well_formed(),
            y * self.spec_width() + x < self@.len(),
            sample == self@[y * self.spec_width() + x],
    {
        let count = self.samples.len();
        proof {
            use_type_invariant(self);
            let w = self.width as int;
            let h = self.height as int;
            assert(0 <= y * w && y * w + x < w * h) by (nonlinear_arith)
                requires
                    0 <= x < w,
                    0 <= y < h,
            ;
        }
        self.samples[y * self.width + x]
    }

    /// Whether two images have the same width and the same height.
    pub fn has_shape_of(&self, other: &GrayFloatImage) -> (same: bool)
        ensures
            same == self.same_shape(other),
            self.well_formed(),
            other.well_formed(),
    {
        proof {
            use_type_invariant(self);
            use_type_invariant(other);
        }
        self.width == other.width && self.height == other.height
    }
}

} // verus!
