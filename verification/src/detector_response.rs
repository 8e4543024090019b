//! The detector response of a scale-space pyramid: the scale-normalized
//! determinant of the Hessian of every level.
//!
//! The directional derivative filters are the caller's: they are handed in
//! as functions. What they return is not assumed to be a function of their
//! arguments, so the contracts here relate each derivative to the call that
//! produced it through the callee's own postcondition. The arithmetic on
//! samples is the library's own.

use crate::evolution::{Buffer, Config, EvolutionStep, ShapeMismatch};
use crate::image::GrayFloatImage;
use crate::lockstep::zip_samples;
use crate::sample::{
    difference_of,
    is_finite,
    is_zero,
    lemma_difference_of_zeros,
    lemma_product_of_zero,
    multiply,
    normalization,
    normalization_of,
    product_of,
    subtract,
    POSITIVE_ZERO,
};
use crate::scale::kernel_scale;
use vstd::prelude::*;

verus! {

/// The primitive may be called on every image at every kernel scale.
pub open spec fn accepts_every_image<D>(primitive: &D) -> bool where
    D: Fn(&GrayFloatImage, u32) -> GrayFloatImage,
 {
    forall|image: &GrayFloatImage, scale: u32| call_requires(primitive, (image, scale))
}

/// Whatever the primitive returns has the shape of its source.
pub open spec fn shape_preserving<D>(primitive: &D) -> bool where
    D: Fn(&GrayFloatImage, u32) -> GrayFloatImage,
 {
    forall|image: &GrayFloatImage, scale: u32, derivative: GrayFloatImage|
        call_ensures(primitive, (image, scale), derivative) ==> derivative.same_shape(image)
}

/// The five derivatives of one level, before they are attached to it.
#[allow(non_snake_case)]
#[derive(Clone, Debug)]
pub struct Derivatives {
    pub Lx: GrayFloatImage,
    pub Ly: GrayFloatImage,
    pub Lxx: GrayFloatImage,
    pub Lyy: GrayFloatImage,
    pub Lxy: GrayFloatImage,
}

/// The derivatives are what the primitives returned for a smoothed image at
/// one kernel scale: `Lx` and `Ly` come from the smoothed image, `Lxx` is the
/// horizontal derivative of `Lx`, `Lyy` the vertical derivative of `Ly`, and
/// the mixed derivative `Lxy` is the vertical derivative of `Lx`.
pub open spec fn derived_from<H, V>(
    derivatives: &Derivatives,
    smooth: &GrayFloatImage,
    sigma_size: u32,
    horizontal: &H,
    vertical: &V,
) -> bool where
    H: Fn(&GrayFloatImage, u32) -> GrayFloatImage,
    V: Fn(&GrayFloatImage, u32) -> GrayFloatImage,
 {
    &&& call_ensures(horizontal, (smooth, sigma_size), derivatives.Lx)
    &&& call_ensures(vertical, (smooth, sigma_size), derivatives.Ly)
    &&& call_ensures(horizontal, (&derivatives.Lx, sigma_size), derivatives.Lxx)
    &&& call_ensures(vertical, (&derivatives.Ly, sigma_size), derivatives.Lyy)
    &&& call_ensures(vertical, (&derivatives.Lx, sigma_size), derivatives.Lxy)
}

/// The first derivative, in the order `Lx`, `Ly`, `Lxx`, `Lyy`, `Lxy`, whose
/// shape differs from that of the smoothed image.
pub open spec fn first_mismatch(derivatives: &Derivatives, smooth: &GrayFloatImage) -> Option<
    Buffer,
> {
    if !derivatives.Lx.same_shape(smooth) {
        Some(Buffer::Lx)
    } else if !derivatives.Ly.same_shape(smooth) {
        Some(Buffer::Ly)
    } else if !derivatives.Lxx.same_shape(smooth) {
        Some(Buffer::Lxx)
    } else if !derivatives.Lyy.same_shape(smooth) {
        Some(Buffer::Lyy)
    } else if !derivatives.Lxy.same_shape(smooth) {
        Some(Buffer::Lxy)
    } else {
        None
    }
}

/// The level `pre` with the given derivatives attached.
pub open spec fn with_derivatives(pre: &EvolutionStep, derivatives: &Derivatives) -> EvolutionStep {
    EvolutionStep {
        octave: pre.octave,
        esigma: pre.esigma,
        Lsmooth: pre.Lsmooth,
        Lx: derivatives.Lx,
        Ly: derivatives.Ly,
        Lxx: derivatives.Lxx,
        Lyy: derivatives.Lyy,
        Lxy: derivatives.Lxy,
        Ldet: pre.Ldet,
    }
}

/// Attaches a set of derivatives to a level if each has the shape of the
/// level's smoothed image, and leaves the level as it was otherwise.
pub fn install_derivatives(evolution: &mut EvolutionStep, derivatives: Derivatives) -> (outcome:
    Result<(), Buffer>)
    ensures
        match outcome {
            Ok(()) => {
                &&& first_mismatch(&derivatives, &old(evolution).Lsmooth) is None
                &&& *final(evolution) == with_derivatives(old(evolution), &derivatives)
            },
            Err(buffer) => {
                &&& first_mismatch(&derivatives, &old(evolution).Lsmooth) == Some(buffer)
                &&& *final(evolution) == *old(evolution)
            },
        },
{
    if !derivatives.Lx.has_shape_of(&evolution.Lsmooth) {
        return Err(Buffer::Lx);
    }
    if !derivatives.Ly.has_shape_of(&evolution.Lsmooth) {
        return Err(Buffer::Ly);
    }
    if !derivatives.Lxx.has_shape_of(&evolution.Lsmooth) {
        return Err(Buffer::Lxx);
    }
    if !derivatives.Lyy.has_shape_of(&evolution.Lsmooth) {
        return Err(Buffer::Lyy);
    }
    if !derivatives.Lxy.has_shape_of(&evolution.Lsmooth) {
        return Err(Buffer::Lxy);
    }
    evolution.Lx = derivatives.Lx;
    evolution.Ly = derivatives.Ly;
    evolution.Lxx = derivatives.Lxx;
    evolution.Lyy = derivatives.Lyy;
    evolution.Lxy = derivatives.Lxy;
    Ok(())
}

/// The derivative buffers that are attached to a level.
pub open spec fn derivatives_of(step: &EvolutionStep) -> Derivatives {
    Derivatives { Lx: step.Lx, Ly: step.Ly, Lxx: step.Lxx, Lyy: step.Lyy, Lxy: step.Lxy }
}

/// The derivative buffers of `post` are what the primitives returned for the
/// smoothed image of `pre` at the given kernel scale, each has the shape of
/// the smoothed image, and octave, smoothing scale and smoothed image are
/// those of `pre`.
pub open spec fn derivatives_populated<H, V>(
    pre: &EvolutionStep,
    post: &EvolutionStep,
    sigma_size: u32,
    horizontal: &H,
    vertical: &V,
) -> bool where
    H: Fn(&GrayFloatImage, u32) -> GrayFloatImage,
    V: Fn(&GrayFloatImage, u32) -> GrayFloatImage,
 {
    &&& post.octave == pre.octave
    &&& post.esigma == pre.esigma
    &&& post.Lsmooth == pre.Lsmooth
    &&& derived_from(&derivatives_of(post), &pre.Lsmooth, sigma_size, horizontal, vertical)
    &&& first_mismatch(&derivatives_of(post), &pre.Lsmooth) is None
}

/// The primitives returned, for the smoothed image of the level at the given
/// kernel scale, a set of derivatives of which `buffer` is the first with
/// another shape than the smoothed image.
pub open spec fn derivatives_rejected<H, V>(
    pre: &EvolutionStep,
    sigma_size: u32,
    horizontal: &H,
    vertical: &V,
    buffer: Buffer,
) -> bool where
    H: Fn(&GrayFloatImage, u32) -> GrayFloatImage,
    V: Fn(&GrayFloatImage, u32) -> GrayFloatImage,
 {
    exists|derivatives: Derivatives|
        #![trigger first_mismatch(&derivatives, &pre.Lsmooth)]
        {
            &&& derived_from(&derivatives, &pre.Lsmooth, sigma_size, horizontal, vertical)
            &&& first_mismatch(&derivatives, &pre.Lsmooth) == Some(buffer)
        }
}

/// Fills the derivative buffers of one level at the given kernel scale.
///
/// The horizontal and the vertical primitive are applied to the smoothed
/// image, then the horizontal one to `Lx`, the vertical one to `Ly`, and the
/// vertical one to `Lx` for the mixed derivative. The smoothed image and the
/// response buffer are not touched. If a primitive returns an image of
/// another shape than the smoothed image, the level is left as it was and
/// the first such buffer is reported.
pub fn compute_multiscale_derivatives_for_evolution<H, V>(
    evolution: &mut EvolutionStep,
    sigma_size: u32,
    horizontal: &H,
    vertical: &V,
) -> (outcome: Result<(), Buffer>) where
    H: Fn(&GrayFloatImage, u32) -> GrayFloatImage,
    V: Fn(&GrayFloatImage, u32) -> GrayFloatImage,

    requires
        accepts_every_image(horizontal),
        accepts_every_image(vertical),
    ensures
        match outcome {
            Ok(()) => {
                &&& derivatives_populated(
                    old(evolution),
                    final(evolution),
                    sigma_size,
                    horizontal,
                    vertical,
                )
                &&& final(evolution).Ldet == old(evolution).Ldet
            },
            Err(buffer) => {
                &&& derivatives_rejected(old(evolution), sigma_size, horizontal, vertical, buffer)
                &&& *final(evolution) == *old(evolution)
            },
        },
        shape_preserving(horizontal) && shape_preserving(vertical) ==> outcome is Ok,
{
    let lx = horizontal(&evolution.Lsmooth, sigma_size);
    let ly = vertical(&evolution.Lsmooth, sigma_size);
    let lxx = horizontal(&lx, sigma_size);
    let lyy = vertical(&ly, sigma_size);
    let lxy = vertical(&lx, sigma_size);
    let derivatives = Derivatives { Lx: lx, Ly: ly, Lxx: lxx, Lyy: lyy, Lxy: lxy };
    let ghost returned = derivatives;
    let outcome = install_derivatives(evolution, derivatives);
    proof {
        assert(derived_from(
            &returned,
            &old(evolution).Lsmooth,
            sigma_size,
            horizontal,
            vertical,
        ));
        if outcome is Ok {
            assert(derivatives_of(evolution) == returned);
        }
    }
    outcome
}

/// What a pass of the derivative primitives over a pyramid leads to.
///
/// On success every level has its derivative buffers populated at its own
/// kernel scale and keeps its response buffer. On failure the levels before
/// the reported one are populated in that way, the reported level was
/// rejected for the reported buffer, and the reported level and all that
/// follow are as they were.
pub open spec fn pyramid_derivatives_outcome<H, V>(
    before: Seq<EvolutionStep>,
    after: Seq<EvolutionStep>,
    options: Config,
    horizontal: &H,
    vertical: &V,
    outcome: Result<(), ShapeMismatch>,
) -> bool where
    H: Fn(&GrayFloatImage, u32) -> GrayFloatImage,
    V: Fn(&GrayFloatImage, u32) -> GrayFloatImage,
 {
    let reached = match outcome {
        Ok(()) => before.len() as int,
        Err(mismatch) => mismatch.level as int,
    };
    &&& after.len() == before.len()
    &&& 0 <= reached <= before.len()
    &&& forall|i: int|
        0 <= i < reached ==> {
            &&& derivatives_populated(
                &before[i],
                #[trigger] &after[i],
                before[i].sigma_size(options),
                horizontal,
                vertical,
            )
            &&& after[i].Ldet == before[i].Ldet
        }
    &&& forall|i: int| reached <= i < before.len() ==> #[trigger] after[i] == before[i]
    &&& outcome matches Err(mismatch) ==> {
        &&& mismatch.level < before.len()
        &&& derivatives_rejected(
            &before[mismatch.level as int],
            before[mismatch.level as int].sigma_size(options),
            horizontal,
            vertical,
            mismatch.buffer,
        )
    }
}

/// Fills the derivative buffers of every level of a pyramid, each at its own
/// kernel scale `round(esigma * derivative_factor / 2^octave)`.
///
/// The levels are taken in order. The pass stops at the first level for
/// which a primitive returns an image of another shape than the smoothed
/// image: that level and those after it are left as they were.
pub fn compute_multiscale_derivatives<H, V>(
    evolutions: &mut Vec<EvolutionStep>,
    options: Config,
    horizontal: &H,
    vertical: &V,
) -> (outcome: Result<(), ShapeMismatch>) where
    H: Fn(&GrayFloatImage, u32) -> GrayFloatImage,
    V: Fn(&GrayFloatImage, u32) -> GrayFloatImage,

    requires
        accepts_every_image(horizontal),
        accepts_every_image(vertical),
    ensures
        pyramid_derivatives_outcome(
            old(evolutions)@,
            final(evolutions)@,
            options,
            horizontal,
            vertical,
            outcome,
        ),
        shape_preserving(horizontal) && shape_preserving(vertical) ==> outcome is Ok,
{
    let ghost before = evolutions@;
    let count = evolutions.len();
    let mut level: usize = 0;
    while level < count
        invariant
            accepts_every_image(horizontal),
            accepts_every_image(vertical),
            evolutions@.len() == count,
            before == old(evolutions)@,
            before.len() == count,
            level <= count,
            forall|i: int|
                0 <= i < level ==> {
                    &&& derivatives_populated(
                        &before[i],
                        #[trigger] &evolutions@[i],
                        before[i].sigma_size(options),
                        horizontal,
                        vertical,
                    )
                    &&& evolutions@[i].Ldet == before[i].Ldet
                },
            forall|i: int| level <= i < count ==> #[trigger] evolutions@[i] == before[i],
        decreases count - level,
    {
        let sigma_size = kernel_scale(
            evolutions[level].esigma,
            options.derivative_factor,
            evolutions[level].octave,
        );
        let populated = compute_multiscale_derivatives_for_evolution(
            &mut evolutions[level],
            sigma_size,
            horizontal,
            vertical,
        );
        match populated {
            Ok(()) => {},
            Err(buffer) => {
                return Err(ShapeMismatch { level, buffer });
            },
        }
        level = level + 1;
    }
    Ok(())
}

/// The determinant of the Hessian with second derivatives `lxx`, `lyy` and
/// mixed derivative `lxy`, times the normalization factor:
/// `(lxx * lyy - lxy * lxy) * normalization` in single-precision arithmetic,
/// each operation rounded.
pub open spec fn normalized_determinant(lxx: u32, lyy: u32, lxy: u32, normalization: u32) -> u32 {
    product_of(difference_of(product_of(lxx, lyy), product_of(lxy, lxy)), normalization)
}

/// `response` holds, for every position that all three derivative buffers
/// reach, the normalized determinant of the Hessian at that position, and
/// positive zero at the positions of `lxx` beyond the end of a shorter
/// buffer.
pub open spec fn is_response(
    response: Seq<u32>,
    lxx: Seq<u32>,
    lyy: Seq<u32>,
    lxy: Seq<u32>,
    normalization: u32,
) -> bool {
    &&& response.len() == lxx.len()
    &&& forall|p: int|
        0 <= p < response.len() ==> #[trigger] response[p] == if p < lyy.len() && p < lxy.len() {
            normalized_determinant(lxx[p], lyy[p], lxy[p], normalization)
        } else {
            POSITIVE_ZERO
        }
}

/// Computes the response buffer for three second-derivative buffers: a new
/// image of the shape of `lxx` whose sample at each position is
/// `(lxx * lyy - lxy * lxy) * normalization`.
pub fn hessian_determinant(
    lxx: &GrayFloatImage,
    lyy: &GrayFloatImage,
    lxy: &GrayFloatImage,
    normalization: u32,
) -> (response: GrayFloatImage)
    ensures
        response.same_shape(lxx),
        response.well_formed(),
        is_response(response@, lxx@, lyy@, lxy@, normalization),
{
    let triples = zip_samples(lxx.samples(), lyy.samples(), lxy.samples());
    let count = lxx.samples().len();
    let reached = triples.len();
    let mut samples: Vec<u32> = Vec::new();
    let mut position: usize = 0;
    while position < count
        invariant
            count == lxx@.len(),
            reached == triples@.len(),
            reached <= lxx@.len(),
            reached <= lyy@.len(),
            reached <= lxy@.len(),
            reached == lxx@.len() || reached == lyy@.len() || reached == lxy@.len(),
            forall|p: int|
                0 <= p < reached ==> #[trigger] triples@[p] == (lxx@[p], lyy@[p], lxy@[p]),
            position <= count,
            samples@.len() == position,
            forall|p: int|
                0 <= p < position ==> #[trigger] samples@[p] == if p < lyy@.len() && p
                    < lxy@.len() {
                    normalized_determinant(lxx@[p], lyy@[p], lxy@[p], normalization)
                } else {
                    POSITIVE_ZERO
                },
        decreases count - position,
    {
        let sample = if position < reached {
            let (a, b, c) = triples[position];
            multiply(subtract(multiply(a, b), multiply(c, c)), normalization)
        } else {
            POSITIVE_ZERO
        };
        samples.push(sample);
        position = position + 1;
    }
    GrayFloatImage::from_samples(lxx.width(), lxx.height(), samples).unwrap()
}

/// The level `pre` with another response buffer.
pub open spec fn with_response(pre: &EvolutionStep, response: &GrayFloatImage) -> EvolutionStep {
    EvolutionStep {
        octave: pre.octave,
        esigma: pre.esigma,
        Lsmooth: pre.Lsmooth,
        Lx: pre.Lx,
        Ly: pre.Ly,
        Lxx: pre.Lxx,
        Lyy: pre.Lyy,
        Lxy: pre.Lxy,
        Ldet: *response,
    }
}

/// The response buffer of the level has the shape of `Lxx` and holds the
/// determinant of the Hessian of the level, normalized by the fourth power
/// of the kernel scale.
pub open spec fn response_populated(post: &EvolutionStep, sigma_size: u32) -> bool {
    &&& post.Ldet.same_shape(&post.Lxx)
    &&& is_response(
        post.Ldet@,
        post.Lxx@,
        post.Lyy@,
        post.Lxy@,
        normalization_of(sigma_size),
    )
}

/// Replaces the response buffer of one level by a new one computed from its
/// second derivatives and its kernel scale. Nothing else of the level
/// changes.
pub fn compute_response_for_evolution(evolution: &mut EvolutionStep, sigma_size: u32)
    ensures
        *final(evolution) == with_response(old(evolution), &final(evolution).Ldet),
        response_populated(final(evolution), sigma_size),
{
    let factor = normalization(sigma_size);
    let response = hessian_determinant(&evolution.Lxx, &evolution.Lyy, &evolution.Lxy, factor);
    evolution.Ldet = response;
}

/// What [`detector_response`] leads to.
///
/// If the derivative pass fails, the pyramid is as that pass left it and no
/// response buffer was touched. Otherwise every level has its derivative
/// buffers populated at its kernel scale, and its response buffer holds the
/// determinant of its Hessian normalized by the fourth power of that scale.
pub open spec fn pyramid_response_outcome<H, V>(
    before: Seq<EvolutionStep>,
    after: Seq<EvolutionStep>,
    options: Config,
    horizontal: &H,
    vertical: &V,
    outcome: Result<(), ShapeMismatch>,
) -> bool where
    H: Fn(&GrayFloatImage, u32) -> GrayFloatImage,
    V: Fn(&GrayFloatImage, u32) -> GrayFloatImage,
 {
    match outcome {
        Ok(()) => {
            &&& after.len() == before.len()
            &&& forall|i: int|
                0 <= i < before.len() ==> {
                    &&& derivatives_populated(
                        &before[i],
                        #[trigger] &after[i],
                        before[i].sigma_size(options),
                        horizontal,
                        vertical,
                    )
                    &&& response_populated(&after[i], before[i].sigma_size(options))
                }
        },
        Err(mismatch) => pyramid_derivatives_outcome(
            before,
            after,
            options,
            horizontal,
            vertical,
            outcome,
        ),
    }
}

/// In every level of the pyramid, all six buffers have the shape of the
/// smoothed image.
pub open spec fn every_level_agrees(pyramid: Seq<EvolutionStep>) -> bool {
    forall|i: int| 0 <= i < pyramid.len() ==> (#[trigger] pyramid[i]).shapes_agree()
}

/// Computes the detector response, the determinant of the Hessian, of every
/// level of a pyramid and saves it in the level.
///
/// The derivative buffers of all levels are filled first, each level at its
/// kernel scale `round(esigma * derivative_factor / 2^octave)`. Then each
/// level gets a new response buffer of the shape of its `Lxx`, whose sample
/// at each position is `(Lxx * Lyy - Lxy * Lxy) * sigma_size^4`.
pub fn detector_response<H, V>(
    evolutions: &mut Vec<EvolutionStep>,
    options: Config,
    horizontal: &H,
    vertical: &V,
) -> (outcome: Result<(), ShapeMismatch>) where
    H: Fn(&GrayFloatImage, u32) -> GrayFloatImage,
    V: Fn(&GrayFloatImage, u32) -> GrayFloatImage,

    requires
        accepts_every_image(horizontal),
        accepts_every_image(vertical),
    ensures
        pyramid_response_outcome(
            old(evolutions)@,
            final(evolutions)@,
            options,
            horizontal,
            vertical,
            outcome,
        ),
        outcome is Ok ==> every_level_agrees(final(evolutions)@),
        shape_preserving(horizontal) && shape_preserving(vertical) ==> outcome is Ok,
{
    let ghost before = evolutions@;
    match compute_multiscale_derivatives(evolutions, options, horizontal, vertical) {
        Ok(()) => {},
        Err(mismatch) => {
            return Err(mismatch);
        },
    }
    let count = evolutions.len();
    let mut level: usize = 0;
    while level < count
        invariant
            evolutions@.len() == count,
            before == old(evolutions)@,
            before.len() == count,
            level <= count,
            forall|i: int|
                0 <= i < count ==> derivatives_populated(
                    &before[i],
                    #[trigger] &evolutions@[i],
                    before[i].sigma_size(options),
                    horizontal,
                    vertical,
                ),
            forall|i: int|
                0 <= i < level ==> response_populated(
                    #[trigger] &evolutions@[i],
                    before[i].sigma_size(options),
                ),
        decreases count - level,
    {
        let sigma_size = kernel_scale(
            evolutions[level].esigma,
            options.derivative_factor,
            evolutions[level].octave,
        );
        compute_response_for_evolution(&mut evolutions[level], sigma_size);
        level = level + 1;
    }
    Ok(())
}

/// The primitive returns one image for one source and kernel scale.
pub open spec fn single_valued<D>(primitive: &D) -> bool where
    D: Fn(&GrayFloatImage, u32) -> GrayFloatImage,
 {
    forall|image: &GrayFloatImage, scale: u32, one: GrayFloatImage, other: GrayFloatImage|
        #![trigger call_ensures(primitive, (image, scale), one), call_ensures(primitive, (image, scale), other)]
        call_ensures(primitive, (image, scale), one) && call_ensures(
            primitive,
            (image, scale),
            other,
        ) ==> one == other
}

/// The samples of the image are all the same number: the same bit pattern,
/// or zeros of either sign.
pub open spec fn is_flat(image: &GrayFloatImage) -> bool {
    forall|p: int, q: int|
        0 <= p < image@.len() && 0 <= q < image@.len() ==> #[trigger] image@[p]
            == #[trigger] image@[q] || (is_zero(image@[p]) && is_zero(image@[q]))
}

/// The samples of the image are all zero.
pub open spec fn is_zero_everywhere(image: &GrayFloatImage) -> bool {
    forall|p: int| 0 <= p < image@.len() ==> is_zero(#[trigger] image@[p])
}

/// The primitive returns zero everywhere for every flat source.
pub open spec fn vanishes_on_flat_images<D>(primitive: &D) -> bool where
    D: Fn(&GrayFloatImage, u32) -> GrayFloatImage,
 {
    forall|image: &GrayFloatImage, scale: u32, derivative: GrayFloatImage|
        call_ensures(primitive, (image, scale), derivative) && is_flat(image)
            ==> is_zero_everywhere(&derivative)
}

/// Where the second derivatives are zero, the determinant is zero, whatever
/// the finite normalization factor.
pub proof fn lemma_determinant_of_zeros(lxx: u32, lyy: u32, lxy: u32, normalization: u32)
    requires
        is_zero(lxx),
        is_zero(lyy),
        is_zero(lxy),
        is_finite(normalization),
    ensures
        is_zero(normalized_determinant(lxx, lyy, lxy, normalization)),
{
    lemma_product_of_zero(lxx, lyy);
    lemma_product_of_zero(lxy, lxy);
    lemma_difference_of_zeros(product_of(lxx, lyy), product_of(lxy, lxy));
    lemma_product_of_zero(
        difference_of(product_of(lxx, lyy), product_of(lxy, lxy)),
        normalization,
    );
}

/// A level whose smoothed image is flat has second derivatives and a
/// response of zero everywhere, whatever its kernel scale, provided that
/// the derivative primitives vanish on flat images and that the
/// normalization factor is finite.
pub proof fn lemma_flat_level_has_zero_response<H, V>(
    pre: &EvolutionStep,
    post: &EvolutionStep,
    sigma_size: u32,
    horizontal: &H,
    vertical: &V,
) where
    H: Fn(&GrayFloatImage, u32) -> GrayFloatImage,
    V: Fn(&GrayFloatImage, u32) -> GrayFloatImage,

    requires
        derivatives_populated(pre, post, sigma_size, horizontal, vertical),
        response_populated(post, sigma_size),
        is_flat(&pre.Lsmooth),
        vanishes_on_flat_images(horizontal),
        vanishes_on_flat_images(vertical),
        is_finite(normalization_of(sigma_size)),
    ensures
        is_zero_everywhere(&post.Lxx),
        is_zero_everywhere(&post.Lyy),
        is_zero_everywhere(&post.Lxy),
        is_zero_everywhere(&post.Ldet),
{
    let factor = normalization_of(sigma_size);
    assert(is_zero_everywhere(&post.Lx));
    assert(is_zero_everywhere(&post.Ly));
    assert(is_flat(&post.Lx));
    assert(is_flat(&post.Ly));
    assert(is_zero_everywhere(&post.Lxx));
    assert(is_zero_everywhere(&post.Lyy));
    assert(is_zero_everywhere(&post.Lxy));
    assert forall|p: int| 0 <= p < post.Ldet@.len() implies is_zero(
        #[trigger] post.Ldet@[p],
    ) by {
        if p < post.Lyy@.len() && p < post.Lxy@.len() {
            lemma_determinant_of_zeros(post.Lxx@[p], post.Lyy@[p], post.Lxy@[p], factor);
        }
    }
}

/// The levels of a pyramid do not influence each other: what one run
/// computed for a level is a possible result for that level in every run
/// whose pyramid has the same octave, smoothing scale and smoothed image at
/// that place, whatever its other levels and buffers hold.
pub proof fn lemma_levels_are_independent<H, V>(
    first_before: Seq<EvolutionStep>,
    first_after: Seq<EvolutionStep>,
    second_before: Seq<EvolutionStep>,
    second_after: Seq<EvolutionStep>,
    options: Config,
    horizontal: &H,
    vertical: &V,
    level: int,
) where
    H: Fn(&GrayFloatImage, u32) -> GrayFloatImage,
    V: Fn(&GrayFloatImage, u32) -> GrayFloatImage,

    requires
        pyramid_response_outcome(
            first_before,
            first_after,
            options,
            horizontal,
            vertical,
            Ok(()),
        ),
        pyramid_response_outcome(
            second_before,
            second_after,
            options,
            horizontal,
            vertical,
            Ok(()),
        ),
        0 <= level < first_before.len(),
        level < second_before.len(),
        first_before[level].octave == second_before[level].octave,
        first_before[level].esigma == second_before[level].esigma,
        first_before[level].Lsmooth == second_before[level].Lsmooth,
    ensures
        pyramid_response_outcome(
            second_before,
            second_after.update(level, first_after[level]),
            options,
            horizontal,
            vertical,
            Ok(()),
        ),
{
    let swapped = second_after.update(level, first_after[level]);
    assert forall|i: int| 0 <= i < second_before.len() implies {
        &&& derivatives_populated(
            &second_before[i],
            #[trigger] &swapped[i],
            second_before[i].sigma_size(options),
            horizontal,
            vertical,
        )
        &&& response_populated(&swapped[i], second_before[i].sigma_size(options))
    } by {
        if i == level {
            assert(derivatives_populated(
                &first_before[i],
                &first_after[i],
                first_before[i].sigma_size(options),
                horizontal,
                vertical,
            ));
        } else {
            assert(derivatives_populated(
                &second_before[i],
                &second_after[i],
                second_before[i].sigma_size(options),
                horizontal,
                vertical,
            ));
        }
    }
}

/// With primitives that return one image for one source and kernel scale,
/// the derivatives and the response of a level are determined by its octave,
/// its smoothing scale and its smoothed image: two runs that agree on these
/// at one level compute the same buffers for it, whatever the other levels,
/// or the other buffers of this level, held.
pub proof fn lemma_level_result_is_determined<H, V>(
    first_before: Seq<EvolutionStep>,
    first_after: Seq<EvolutionStep>,
    second_before: Seq<EvolutionStep>,
    second_after: Seq<EvolutionStep>,
    options: Config,
    horizontal: &H,
    vertical: &V,
    level: int,
) where
    H: Fn(&GrayFloatImage, u32) -> GrayFloatImage,
    V: Fn(&GrayFloatImage, u32) -> GrayFloatImage,

    requires
        pyramid_response_outcome(
            first_before,
            first_after,
            options,
            horizontal,
            vertical,
            Ok(()),
        ),
        pyramid_response_outcome(
            second_before,
            second_after,
            options,
            horizontal,
            vertical,
            Ok(()),
        ),
        0 <= level < first_before.len(),
        level < second_before.len(),
        first_before[level].octave == second_before[level].octave,
        first_before[level].esigma == second_before[level].esigma,
        first_before[level].Lsmooth == second_before[level].Lsmooth,
        single_valued(horizontal),
        single_valued(vertical),
    ensures
        derivatives_of(&first_after[level]) == derivatives_of(&second_after[level]),
        first_after[level].Ldet.same_shape(&second_after[level].Ldet),
        first_after[level].Ldet@ == second_after[level].Ldet@,
{
    let one = first_after[level];
    let other = second_after[level];
    let sigma_size = first_before[level].sigma_size(options);
    assert(derivatives_populated(
        &first_before[level],
        &first_after[level],
        sigma_size,
        horizontal,
        vertical,
    ));
    assert(derivatives_populated(
        &second_before[level],
        &second_after[level],
        sigma_size,
        horizontal,
        vertical,
    ));
    assert(one.Lx == other.Lx);
    assert(one.Ly == other.Ly);
    assert(one.Lxx == other.Lxx);
    assert(one.Lyy == other.Lyy);
    assert(one.Lxy == other.Lxy);
    assert(one.Ldet@ =~= other.Ldet@);
}

} // verus!
