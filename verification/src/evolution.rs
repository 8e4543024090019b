//! The levels of a scale-space pyramid and the configuration of the detector.

use crate::image::GrayFloatImage;
use crate::scale::kernel_scale_of;
use vstd::prelude::*;

verus! {

/// The configuration of the detector.
#[derive(Clone, Copy, Debug)]
pub struct Config {
    /// The factor between a level's smoothing scale and the scale of its
    /// derivative kernels: a positive double, as its binary64 bit pattern.
    pub derivative_factor: u64,
}

/// One level of the pyramid: a smoothed image at one scale, with the
/// buffers that the detector fills.
///
/// Every buffer belongs to its level alone.
#[allow(non_snake_case)]
#[derive(Clone, Debug)]
pub struct EvolutionStep {
    /// The octave of the level: its image is the base image reduced by
    /// `2^octave`.
    pub octave: u32,
    /// The accumulated smoothing scale: a positive double, as its binary64
    /// bit pattern.
    pub esigma: u64,
    /// The smoothed image.
    pub Lsmooth: GrayFloatImage,
    /// The horizontal derivative of the smoothed image.
    pub Lx: GrayFloatImage,
    /// The vertical derivative of the smoothed image.
    pub Ly: GrayFloatImage,
    /// The second horizontal derivative.
    pub Lxx: GrayFloatImage,
    /// The second vertical derivative.
    pub Lyy: GrayFloatImage,
    /// The mixed derivative: the vertical derivative of `Lx`.
    pub Lxy: GrayFloatImage,
    /// The detector response: the scale-normalized determinant of the
    /// Hessian.
    pub Ldet: GrayFloatImage,
}

/// The derivative buffers of a level.
#[derive(Clone, Copy, Debug, PartialEq, Eq, Structural)]
pub enum Buffer {
    Lx,
    Ly,
    Lxx,
    Lyy,
    Lxy,
}

/// A derivative primitive returned an image whose shape differs from that of
/// the smoothed image of the level.
#[derive(Clone, Copy, Debug, PartialEq, Eq, Structural)]
pub struct ShapeMismatch {
    /// The index of the level in the pyramid.
    pub level: usize,
    /// The first buffer, in the order of [`Buffer`], that had the wrong
    /// shape.
    pub buffer: Buffer,
}

impl EvolutionStep {
    /// The kernel scale of the level under a configuration.
    pub open spec fn sigma_size(&self, options: Config) -> u32 {
        kernel_scale_of(self.esigma, options.derivative_factor, self.octave)
    }

    /// All six buffers have the shape of the smoothed image.
    pub open spec fn shapes_agree(&self) -> bool {
        &&& self.Lx.same_shape(&self.Lsmooth)
        &&& self.Ly.same_shape(&self.Lsmooth)
        &&& self.Lxx.same_shape(&self.Lsmooth)
        &&& self.Lyy.same_shape(&self.Lsmooth)
        &&& self.Lxy.same_shape(&self.Lsmooth)
        &&& self.Ldet.same_shape(&self.Lsmooth)
    }

    /// A level over a smoothed image, with empty derivative and response
    /// buffers.
    pub fn new(octave: u32, esigma: u64, smooth: GrayFloatImage) -> (step: EvolutionStep)
        ensures
            step.octave == octave,
            step.esigma == esigma,
            step.Lsmooth == smooth,
            step.Lx@.len() == 0,
            step.Ly@.len() == 0,
            step.Lxx@.len() == 0,
            step.Lyy@.len() == 0,
            step.Lxy@.len() == 0,
            step.Ldet@.len() == 0,
    {
        EvolutionStep {
            octave,
            esigma,
            Lsmooth: smooth,
            Lx: GrayFloatImage::new(0, 0),
            Ly: GrayFloatImage::new(0, 0),
            Lxx: GrayFloatImage::new(0, 0),
            Lyy: GrayFloatImage::new(0, 0),
            Lxy: GrayFloatImage::new(0, 0),
            Ldet: GrayFloatImage::new(0, 0),
        }
    }
}

} // verus!
