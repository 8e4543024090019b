use hessian_response::scale::kernel_scale;

fn by_doubles(esigma: f64, derivative_factor: f64, octave: u32) -> u32 {
    let ratio = 2.0f64.powi(octave as i32);
    f64::round(esigma * derivative_factor / ratio) as u32
}

fn scale(esigma: f64, derivative_factor: f64, octave: u32) -> u32 {
    kernel_scale(esigma.to_bits(), derivative_factor.to_bits(), octave)
}

struct Xorshift(u64);

impl Xorshift {
    fn next(&mut self) -> u64 {
        let mut x = self.0;
        x ^= x << 13;
        x ^= x >> 7;
        x ^= x << 17;
        self.0 = x;
        x
    }
}

#[test]
fn kernel_scale_of_the_default_configuration() {
    assert_eq!(scale(1.6, 1.5, 0), 2);
    assert_eq!(scale(1.6, 1.5, 1), 1);
    assert_eq!(scale(1.6, 1.5, 2), 1);
    assert_eq!(scale(1.6, 1.5, 3), 0);
}

#[test]
fn kernel_scale_rounds_halves_away_from_zero() {
    assert_eq!(scale(2.5, 1.0, 0), 3);
    assert_eq!(scale(3.5, 1.0, 0), 4);
    assert_eq!(scale(0.5, 1.0, 0), 1);
    assert_eq!(scale(5.0, 1.0, 1), 3);
    assert_eq!(scale(1.0, 1.0, 1), 1);
    assert_eq!(scale(0.49999999999999994, 1.0, 0), 0);
    assert_eq!(scale(2.4999999999999996, 1.0, 0), 2);
}

#[test]
fn kernel_scale_rounds_the_product_as_doubles_do() {
    // The exact product lies below 2.5; as a double it is 2.5.
    let esigma = 1.6666666666666667f64;
    let factor = 1.5f64;
    assert_eq!(esigma * factor, 2.5);
    assert_eq!(scale(esigma, factor, 0), 3);
    assert_eq!(scale(esigma, factor, 0), by_doubles(esigma, factor, 0));
}

#[test]
fn kernel_scale_saturates() {
    assert_eq!(scale(4294967294.4, 1.0, 0), 4294967294);
    assert_eq!(scale(4294967295.0, 1.0, 0), u32::MAX);
    assert_eq!(scale(4294967296.0, 1.0, 0), u32::MAX);
    assert_eq!(scale(1.0e300, 1.0e300, 0), u32::MAX);
    assert_eq!(scale(1.0e300, 1.0e300, 1023), u32::MAX);
    assert_eq!(scale(f64::INFINITY, 1.5, 4), u32::MAX);
    assert_eq!(scale(f64::MAX, 1.0, 1023), 2);
}

#[test]
fn kernel_scale_of_degenerate_inputs_is_zero() {
    assert_eq!(scale(-1.6, 1.5, 0), 0);
    assert_eq!(scale(1.6, -1.5, 0), 0);
    assert_eq!(scale(-0.0, 1.5, 0), 0);
    assert_eq!(scale(0.0, 1.5, 0), 0);
    assert_eq!(scale(f64::NAN, 1.5, 0), 0);
    assert_eq!(scale(1.6, f64::NAN, 0), 0);
    assert_eq!(scale(f64::INFINITY, 0.0, 0), 0);
    assert_eq!(scale(f64::NEG_INFINITY, 1.5, 0), 0);
    assert_eq!(scale(f64::MIN_POSITIVE, f64::MIN_POSITIVE, 0), 0);
    assert_eq!(scale(5e-324, 1.0, 0), 0);
}

#[test]
fn kernel_scale_with_an_infinite_ratio_is_zero() {
    assert_eq!(scale(f64::MAX, 1.0, 1024), 0);
    assert_eq!(scale(f64::INFINITY, 1.0, 1024), 0);
    assert_eq!(scale(1.0e300, 1.0e300, 1024), 0);
    assert_eq!(scale(1.6, 1.5, 5000), 0);
    assert_eq!(scale(1.6, 1.5, u32::MAX), 0);
}

#[test]
fn two_negative_factors_give_a_positive_scale() {
    // Both signs negative: the product is positive.
    assert_eq!(scale(-1.6, -1.5, 0), 2);
    assert_eq!(scale(f64::NEG_INFINITY, -1.0, 0), u32::MAX);
}

#[test]
fn kernel_scale_agrees_with_double_arithmetic_on_moderate_values() {
    let mut random = Xorshift(0x9e37_79b9_7f4a_7c15);
    for _ in 0..200_000 {
        let esigma = (random.next() % 1_000_000) as f64 / 1024.0 + 0.001;
        let factor = (random.next() % 100_000) as f64 / 7919.0;
        let octave = (random.next() % 12) as u32;
        assert_eq!(
            scale(esigma, factor, octave),
            by_doubles(esigma, factor, octave),
            "esigma {esigma} factor {factor} octave {octave}"
        );
    }
}

#[test]
fn kernel_scale_agrees_with_double_arithmetic_near_halves() {
    let mut random = Xorshift(0x0123_4567_89ab_cdef);
    for _ in 0..200_000 {
        let whole = (random.next() % 4096) as f64 + 0.5;
        let factor = (random.next() % 1000 + 1) as f64 / 97.0;
        let esigma = whole / factor;
        for nudge in 0..5u64 {
            let near = f64::from_bits(esigma.to_bits() - 2 + nudge);
            let octave = (random.next() % 4) as u32;
            assert_eq!(
                scale(near, factor, octave),
                by_doubles(near, factor, octave),
                "esigma {near} factor {factor} octave {octave}"
            );
        }
    }
}

#[test]
fn kernel_scale_agrees_with_double_arithmetic_on_any_bit_pattern() {
    let mut random = Xorshift(0xdead_beef_cafe_f00d);
    for _ in 0..300_000 {
        let esigma = f64::from_bits(random.next());
        let factor = f64::from_bits(random.next());
        let octave = (random.next() % 1100) as u32;
        assert_eq!(
            scale(esigma, factor, octave),
            by_doubles(esigma, factor, octave),
            "esigma {esigma:e} factor {factor:e} octave {octave}"
        );
    }
}

#[test]
fn kernel_scale_agrees_with_double_arithmetic_where_exponents_cancel() {
    let mut random = Xorshift(0x1357_9bdf_0246_8ace);
    for _ in 0..300_000 {
        let a = random.next();
        let b = random.next();
        let octave = (random.next() % 1100) as u32;
        // Keep the fractions, choose exponents whose sum lands near the octave.
        let exponent_a = random.next() % 2047;
        let target = 1023 + 1023 + octave as u64 + random.next() % 40;
        let exponent_b = target.saturating_sub(exponent_a).min(2046);
        let esigma = f64::from_bits((a & 0x000f_ffff_ffff_ffff) | (exponent_a << 52));
        let factor = f64::from_bits((b & 0x000f_ffff_ffff_ffff) | (exponent_b << 52));
        assert_eq!(
            scale(esigma, factor, octave),
            by_doubles(esigma, factor, octave),
            "esigma {esigma:e} factor {factor:e} octave {octave}"
        );
    }
}

#[test]
fn kernel_scale_does_not_grow_with_the_octave() {
    let mut random = Xorshift(0x2468_ace0_1357_9bdf);
    for _ in 0..20_000 {
        let esigma = (random.next() % 1_000_000) as f64 / 64.0;
        let factor = (random.next() % 10_000) as f64 / 512.0;
        let mut last = scale(esigma, factor, 0);
        for octave in 1..40 {
            let next = scale(esigma, factor, octave);
            assert!(next <= last);
            last = next;
        }
    }
}

#[test]
fn kernel_scale_at_octave_zero_is_the_rounded_product() {
    let mut random = Xorshift(0x0f0f_0f0f_f0f0_f0f0);
    for _ in 0..20_000 {
        let esigma = (random.next() % 1_000_000) as f64 / 64.0;
        let factor = (random.next() % 10_000) as f64 / 512.0;
        assert_eq!(scale(esigma, factor, 0), f64::round(esigma * factor) as u32);
    }
}
