use hessian_response::detector_response::{
    compute_multiscale_derivatives, compute_multiscale_derivatives_for_evolution,
    compute_response_for_evolution, detector_response, hessian_determinant, install_derivatives,
    Derivatives,
};
use hessian_response::evolution::{Buffer, Config, EvolutionStep, ShapeMismatch};
use hessian_response::image::GrayFloatImage;
use hessian_response::sample::normalization;
use hessian_response::scale::kernel_scale;
use std::cell::Cell;

fn image(width: usize, height: usize, samples: &[f32]) -> GrayFloatImage {
    let bits = samples.iter().map(|sample| sample.to_bits()).collect();
    GrayFloatImage::from_samples(width, height, bits).unwrap()
}

fn floats(image: &GrayFloatImage) -> Vec<f32> {
    image.samples().iter().map(|bits| f32::from_bits(*bits)).collect()
}

fn map(source: &GrayFloatImage, change: impl Fn(f32) -> f32) -> GrayFloatImage {
    let bits = source.samples().iter().map(|bits| change(f32::from_bits(*bits)).to_bits()).collect();
    GrayFloatImage::from_samples(source.width(), source.height(), bits).unwrap()
}

/// Doubles every sample and adds the kernel scale.
fn doubling(source: &GrayFloatImage, scale: u32) -> GrayFloatImage {
    map(source, |sample| 2.0 * sample + scale as f32)
}

/// Triples every sample.
fn tripling(source: &GrayFloatImage, _scale: u32) -> GrayFloatImage {
    map(source, |sample| 3.0 * sample)
}

/// The difference between the neighbours `scale` columns to the right and
/// to the left, at the border the border sample.
fn across(source: &GrayFloatImage, scale: u32) -> GrayFloatImage {
    let (width, height) = (source.width(), source.height());
    let reach = scale as usize;
    let mut bits = Vec::new();
    for y in 0..height {
        for x in 0..width {
            let right = (x + reach).min(width - 1);
            let left = x.saturating_sub(reach);
            let difference =
                f32::from_bits(source.get(right, y)) - f32::from_bits(source.get(left, y));
            bits.push(difference.to_bits());
        }
    }
    GrayFloatImage::from_samples(width, height, bits).unwrap()
}

/// The difference between the neighbours `scale` rows below and above.
fn down(source: &GrayFloatImage, scale: u32) -> GrayFloatImage {
    let (width, height) = (source.width(), source.height());
    let reach = scale as usize;
    let mut bits = Vec::new();
    for y in 0..height {
        for x in 0..width {
            let below = (y + reach).min(height - 1);
            let above = y.saturating_sub(reach);
            let difference =
                f32::from_bits(source.get(x, below)) - f32::from_bits(source.get(x, above));
            bits.push(difference.to_bits());
        }
    }
    GrayFloatImage::from_samples(width, height, bits).unwrap()
}

/// Drops the last row of its source.
fn cropping(source: &GrayFloatImage, _scale: u32) -> GrayFloatImage {
    let (width, height) = (source.width(), source.height() - 1);
    let bits = source.samples()[..width * height].to_vec();
    GrayFloatImage::from_samples(width, height, bits).unwrap()
}

fn options() -> Config {
    Config { derivative_factor: 1.5f64.to_bits() }
}

fn level(octave: u32, esigma: f64, smooth: GrayFloatImage) -> EvolutionStep {
    EvolutionStep::new(octave, esigma.to_bits(), smooth)
}

fn ramp(width: usize, height: usize) -> GrayFloatImage {
    let samples: Vec<f32> =
        (0..width * height).map(|p| ((p * p) % 17) as f32 * 0.25 + (p / width) as f32).collect();
    image(width, height, &samples)
}

#[test]
fn concrete_response_of_one_sample() {
    let sigma_size = kernel_scale(1.6f64.to_bits(), 1.5f64.to_bits(), 0);
    assert_eq!(sigma_size, 2);
    let factor = normalization(sigma_size);
    assert_eq!(f32::from_bits(factor), 16.0);
    let response = hessian_determinant(
        &image(1, 1, &[2.0]),
        &image(1, 1, &[3.0]),
        &image(1, 1, &[1.0]),
        factor);
    assert_eq!(floats(&response), vec![80.0]);
}

#[test]
fn response_of_one_level_from_its_second_derivatives() {
    let mut step = level(0, 1.6, image(2, 2, &[0.0; 4]));
    step.Lxx = image(2, 2, &[2.0, 1.0, -1.0, 0.5]);
    step.Lyy = image(2, 2, &[3.0, 1.0, 4.0, 0.5]);
    step.Lxy = image(2, 2, &[1.0, 2.0, 0.0, 0.5]);
    step.Ldet = image(1, 1, &[7.0]);
    compute_response_for_evolution(&mut step, 2);
    assert_eq!(floats(&step.Ldet), vec![80.0, -48.0, -64.0, 0.0]);
    assert!(step.Ldet.has_shape_of(&step.Lxx));
    assert_eq!(floats(&step.Lxx), vec![2.0, 1.0, -1.0, 0.5]);
    assert_eq!(floats(&step.Lyy), vec![3.0, 1.0, 4.0, 0.5]);
    assert_eq!(floats(&step.Lxy), vec![1.0, 2.0, 0.0, 0.5]);
    assert_eq!(step.octave, 0);
}

#[test]
fn response_is_the_determinant_times_the_fourth_power_of_the_scale() {
    let lxx = ramp(5, 4);
    let lyy = map(&lxx, |sample| 1.5 - sample);
    let lxy = map(&lxx, |sample| 0.125 * sample * sample);
    for sigma_size in [0u32, 1, 2, 3, 7, 100] {
        let response =
            hessian_determinant(&lxx, &lyy, &lxy, normalization(sigma_size));
        assert!(response.has_shape_of(&lxx));
        let factor = (sigma_size as f64).powi(4) as f32;
        for p in 0..20 {
            let (a, b, c) = (floats(&lxx)[p], floats(&lyy)[p], floats(&lxy)[p]);
            assert_eq!(floats(&response)[p], ((a * b) - (c * c)) * factor);
        }
    }
}

#[test]
fn response_stops_where_the_shortest_buffer_ends() {
    let lxx = image(3, 2, &[1.0, 2.0, 3.0, 4.0, 5.0, 6.0]);
    let lyy = image(2, 2, &[1.0, 1.0, 1.0, 1.0]);
    let lxy = image(5, 1, &[0.0, 1.0, 0.0, 1.0, 0.0]);
    let response = hessian_determinant(&lxx, &lyy, &lxy, 1.0f32.to_bits());
    assert_eq!(response.width(), 3);
    assert_eq!(response.height(), 2);
    assert_eq!(floats(&response), vec![1.0, 1.0, 3.0, 3.0, 0.0, 0.0]);
    assert_eq!(response.samples()[4], 0);
    assert_eq!(response.samples()[5], 0);
}

#[test]
fn response_of_empty_buffers_is_empty() {
    let empty = GrayFloatImage::new(0, 0);
    let response = hessian_determinant(&empty, &empty, &empty, 1.0f32.to_bits());
    assert!(response.samples().is_empty());
    let missing = hessian_determinant(
        &image(2, 1, &[1.0, 2.0]),
        &empty,
        &image(2, 1, &[1.0, 2.0]),
        1.0f32.to_bits());
    assert_eq!(floats(&missing), vec![0.0, 0.0]);
}

#[test]
fn derivatives_of_one_level_follow_the_fixed_path() {
    let smooth = image(2, 1, &[1.0, 10.0]);
    let mut step = level(0, 1.6, smooth.clone());
    step.Ldet = image(1, 1, &[5.0]);
    let outcome = compute_multiscale_derivatives_for_evolution(&mut step, 4, &doubling, &tripling);
    assert_eq!(outcome, Ok(()));
    assert_eq!(floats(&step.Lx), vec![6.0, 24.0]);
    assert_eq!(floats(&step.Ly), vec![3.0, 30.0]);
    assert_eq!(floats(&step.Lxx), vec![16.0, 52.0]);
    assert_eq!(floats(&step.Lyy), vec![9.0, 90.0]);
    // The mixed derivative is the vertical derivative of Lx, not the
    // horizontal derivative of Ly, which would be 10 and 64.
    assert_eq!(floats(&step.Lxy), vec![18.0, 72.0]);
    assert_eq!(step.Lsmooth, smooth);
    assert_eq!(floats(&step.Ldet), vec![5.0]);
}

#[test]
fn derivatives_of_a_pyramid_use_the_scale_of_each_level() {
    let mut evolutions = vec![
        level(0, 1.6, image(1, 1, &[0.0])),
        level(1, 1.6, image(1, 1, &[0.0])),
        level(0, 6.4, image(1, 1, &[0.0])),
        level(3, 6.4, image(1, 1, &[0.0])),
    ];
    let outcome = compute_multiscale_derivatives(&mut evolutions, options(), &doubling, &tripling);
    assert_eq!(outcome, Ok(()));
    let scales: Vec<f32> = evolutions.iter().map(|step| floats(&step.Lx)[0]).collect();
    assert_eq!(scales, vec![2.0, 1.0, 10.0, 1.0]);
    for step in &evolutions {
        assert!(step.Ldet.samples().is_empty());
    }
}

#[test]
fn detector_response_fills_every_buffer_of_every_level() {
    let mut evolutions =
        vec![level(0, 1.6, image(2, 2, &[1.0, 2.0, 3.0, 4.0])), level(1, 3.2, ramp(3, 2))];
    let smooth: Vec<GrayFloatImage> = evolutions.iter().map(|step| step.Lsmooth.clone()).collect();
    let outcome =
        detector_response(&mut evolutions, options(), &doubling, &tripling);
    assert_eq!(outcome, Ok(()));
    assert_eq!(evolutions.len(), 2);
    for (step, smooth) in evolutions.iter().zip(&smooth) {
        let sigma_size = kernel_scale(step.esigma, options().derivative_factor, step.octave);
        assert_eq!(sigma_size, 2);
        assert_eq!(step.Lsmooth, *smooth);
        assert_eq!(step.Lx, doubling(smooth, sigma_size));
        assert_eq!(step.Ly, tripling(smooth, sigma_size));
        assert_eq!(step.Lxx, doubling(&step.Lx, sigma_size));
        assert_eq!(step.Lyy, tripling(&step.Ly, sigma_size));
        assert_eq!(step.Lxy, tripling(&step.Lx, sigma_size));
        let (lxx, lyy, lxy) = (floats(&step.Lxx), floats(&step.Lyy), floats(&step.Lxy));
        let response = floats(&step.Ldet);
        assert_eq!(response.len(), lxx.len());
        for p in 0..response.len() {
            assert_eq!(response[p], ((lxx[p] * lyy[p]) - (lxy[p] * lxy[p])) * 16.0);
        }
    }
    // First sample of the first level: Lxx = 4 + 6, Lyy = 9, Lxy = 3 * 4.
    assert_eq!(floats(&evolutions[0].Ldet)[0], (10.0 * 9.0 - 12.0 * 12.0) * 16.0);
}

#[test]
fn detector_response_keeps_every_shape() {
    let mut evolutions = vec![
        level(0, 1.6, ramp(4, 3)),
        level(1, 2.0, ramp(2, 5)),
        level(2, 4.0, ramp(1, 1)),
        level(2, 4.0, GrayFloatImage::new(0, 0)),
    ];
    let outcome = detector_response(&mut evolutions, options(), &across, &down);
    assert_eq!(outcome, Ok(()));
    let shapes = [(4, 3), (2, 5), (1, 1), (0, 0)];
    for (step, (width, height)) in evolutions.iter().zip(shapes) {
        for buffer in
            [&step.Lsmooth, &step.Lx, &step.Ly, &step.Lxx, &step.Lyy, &step.Lxy, &step.Ldet]
        {
            assert_eq!((buffer.width(), buffer.height()), (width, height));
            assert_eq!(buffer.samples().len(), width * height);
        }
    }
}

#[test]
fn detector_response_of_an_empty_pyramid() {
    let mut evolutions: Vec<EvolutionStep> = Vec::new();
    let outcome = detector_response(&mut evolutions, options(), &across, &down);
    assert_eq!(outcome, Ok(()));
    assert!(evolutions.is_empty());
}

#[test]
fn flat_image_has_zero_response() {
    for (esigma, octave) in [(1.6, 0), (40.0, 0), (1.6, 4), (1.0e6, 2)] {
        let mut evolutions = vec![level(octave, esigma, image(4, 3, &[7.25; 12]))];
        let outcome =
            detector_response(&mut evolutions, options(), &across, &down);
        assert_eq!(outcome, Ok(()));
        let step = &evolutions[0];
        for buffer in [&step.Lxx, &step.Lyy, &step.Lxy, &step.Ldet] {
            assert!(floats(buffer).iter().all(|sample| *sample == 0.0));
        }
    }
}

#[test]
fn flat_image_with_an_infinite_normalization_has_no_zero_response() {
    let mut step = level(0, 1.0, image(1, 1, &[0.0]));
    step.Lxx = image(1, 1, &[0.0]);
    step.Lyy = image(1, 1, &[0.0]);
    step.Lxy = image(1, 1, &[0.0]);
    compute_response_for_evolution(&mut step, u32::MAX);
    assert!(floats(&step.Ldet)[0].is_nan());
}

#[test]
fn levels_do_not_influence_each_other() {
    let second = ramp(3, 3);
    let mut one = vec![level(0, 1.6, ramp(2, 2)), level(1, 3.2, second.clone())];
    let mut other = vec![level(4, 900.0, image(1, 1, &[f32::NAN])), level(1, 3.2, second.clone())];
    other[0].Ldet = image(1, 1, &[f32::INFINITY]);
    other[1].Lxx = image(1, 2, &[3.0, 4.0]);
    other[1].Ldet = image(2, 1, &[3.0, 4.0]);
    assert_eq!(
        detector_response(&mut one, options(), &across, &down),
        Ok(())
    );
    assert_eq!(
        detector_response(&mut other, options(), &across, &down),
        Ok(())
    );
    assert_eq!(one[1].Ldet, other[1].Ldet);
    assert_eq!(one[1].Lx, other[1].Lx);
    assert_eq!(one[1].Lxy, other[1].Lxy);
    assert!(floats(&one[1].Ldet).iter().any(|sample| *sample != 0.0));
}

#[test]
fn install_accepts_derivatives_of_the_right_shape() {
    let mut step = level(2, 1.6, ramp(2, 2));
    step.Ldet = image(1, 1, &[9.0]);
    let derivatives = Derivatives {
        Lx: image(2, 2, &[1.0; 4]),
        Ly: image(2, 2, &[2.0; 4]),
        Lxx: image(2, 2, &[3.0; 4]),
        Lyy: image(2, 2, &[4.0; 4]),
        Lxy: image(2, 2, &[5.0; 4]),
    };
    assert_eq!(install_derivatives(&mut step, derivatives), Ok(()));
    assert_eq!(floats(&step.Lx), vec![1.0; 4]);
    assert_eq!(floats(&step.Ly), vec![2.0; 4]);
    assert_eq!(floats(&step.Lxx), vec![3.0; 4]);
    assert_eq!(floats(&step.Lyy), vec![4.0; 4]);
    assert_eq!(floats(&step.Lxy), vec![5.0; 4]);
    assert_eq!(floats(&step.Ldet), vec![9.0]);
    assert_eq!(step.Lsmooth, ramp(2, 2));
    assert_eq!(step.octave, 2);
}

#[test]
fn install_reports_the_first_buffer_of_another_shape() {
    let good = image(2, 2, &[1.0; 4]);
    let bad = image(4, 1, &[1.0; 4]);
    let cases = [
        ([&bad, &bad, &bad, &bad, &bad], Buffer::Lx),
        ([&good, &bad, &good, &bad, &good], Buffer::Ly),
        ([&good, &good, &bad, &good, &bad], Buffer::Lxx),
        ([&good, &good, &good, &bad, &bad], Buffer::Lyy),
        ([&good, &good, &good, &good, &bad], Buffer::Lxy),
    ];
    for (buffers, first) in cases {
        let mut step = level(0, 1.6, ramp(2, 2));
        step.Lx = image(1, 1, &[8.0]);
        let derivatives = Derivatives {
            Lx: buffers[0].clone(),
            Ly: buffers[1].clone(),
            Lxx: buffers[2].clone(),
            Lyy: buffers[3].clone(),
            Lxy: buffers[4].clone(),
        };
        assert_eq!(install_derivatives(&mut step, derivatives), Err(first));
        assert_eq!(floats(&step.Lx), vec![8.0]);
        assert!(step.Ly.samples().is_empty());
        assert!(step.Lxx.samples().is_empty());
        assert!(step.Lyy.samples().is_empty());
        assert!(step.Lxy.samples().is_empty());
    }
}

#[test]
fn a_primitive_that_changes_the_shape_is_reported() {
    let mut step = level(0, 1.6, ramp(3, 3));
    let outcome = compute_multiscale_derivatives_for_evolution(&mut step, 2, &across, &cropping);
    assert_eq!(outcome, Err(Buffer::Ly));
    assert!(step.Lx.samples().is_empty());
    assert!(step.Ly.samples().is_empty());
    let outcome = compute_multiscale_derivatives_for_evolution(&mut step, 2, &cropping, &down);
    assert_eq!(outcome, Err(Buffer::Lx));
    assert!(step.Lx.samples().is_empty());
}

#[test]
fn a_second_derivative_of_another_shape_is_reported() {
    // Each primitive crops on one of its calls only: the horizontal one is
    // called for Lx and Lxx, the vertical one for Ly, Lyy and Lxy.
    let cases = [
        (2, 0, Buffer::Lxx),
        (0, 2, Buffer::Lyy),
        (0, 3, Buffer::Lxy),
        (2, 2, Buffer::Lxx),
        (0, 1, Buffer::Ly),
        (1, 1, Buffer::Lx),
    ];
    for (bad_across, bad_down, first) in cases {
        let calls_across = Cell::new(0);
        let calls_down = Cell::new(0);
        let horizontal = |source: &GrayFloatImage, scale: u32| {
            calls_across.set(calls_across.get() + 1);
            if calls_across.get() == bad_across {
                cropping(source, scale)
            } else {
                across(source, scale)
            }
        };
        let vertical = |source: &GrayFloatImage, scale: u32| {
            calls_down.set(calls_down.get() + 1);
            if calls_down.get() == bad_down {
                cropping(source, scale)
            } else {
                down(source, scale)
            }
        };
        let mut step = level(0, 1.6, ramp(3, 3));
        let outcome =
            compute_multiscale_derivatives_for_evolution(&mut step, 1, &horizontal, &vertical);
        assert_eq!(outcome, Err(first));
        for buffer in [&step.Lx, &step.Ly, &step.Lxx, &step.Lyy, &step.Lxy, &step.Ldet] {
            assert!(buffer.samples().is_empty());
        }
        assert_eq!(step.Lsmooth, ramp(3, 3));
    }
}

#[test]
fn a_failing_level_stops_the_pass() {
    // The vertical primitive crops images of three rows only.
    let picky = |source: &GrayFloatImage, scale: u32| {
        if source.height() == 3 {
            cropping(source, scale)
        } else {
            down(source, scale)
        }
    };
    let mut evolutions =
        vec![level(0, 1.6, ramp(2, 2)), level(0, 1.6, ramp(2, 3)), level(0, 1.6, ramp(2, 4))];
    evolutions[0].Ldet = image(1, 1, &[1.0]);
    let outcome = detector_response(&mut evolutions, options(), &across, &picky);
    assert_eq!(outcome, Err(ShapeMismatch { level: 1, buffer: Buffer::Ly }));
    assert_eq!(evolutions.len(), 3);
    // The first level has its derivatives and its old response buffer.
    assert_eq!(evolutions[0].Lx, across(&ramp(2, 2), 2));
    assert_eq!(evolutions[0].Lxy, down(&across(&ramp(2, 2), 2), 2));
    assert_eq!(floats(&evolutions[0].Ldet), vec![1.0]);
    // The failing level and the one after it are untouched.
    for step in &evolutions[1..] {
        for buffer in [&step.Lx, &step.Ly, &step.Lxx, &step.Lyy, &step.Lxy, &step.Ldet] {
            assert!(buffer.samples().is_empty());
        }
    }
    assert_eq!(evolutions[1].Lsmooth, ramp(2, 3));
    assert_eq!(evolutions[2].Lsmooth, ramp(2, 4));
}

#[test]
fn degenerate_scale_is_left_to_the_primitives() {
    // A negative smoothing scale gives kernel scale zero, which the
    // primitives receive as it is.
    let mut evolutions = vec![level(0, -1.6, image(1, 1, &[0.0]))];
    let outcome =
        detector_response(&mut evolutions, options(), &doubling, &tripling);
    assert_eq!(outcome, Ok(()));
    assert_eq!(floats(&evolutions[0].Lx), vec![0.0]);
    assert_eq!(floats(&evolutions[0].Ldet), vec![0.0]);
}
