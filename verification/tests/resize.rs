//! Resampling of RGBA8 images with the taps of real filter kernels.

use mlxrs::error::{Cause, Error};
use mlxrs::vlm::resize::{
    checked_buffer_bytes, clip8, convolve_axis, convolve_vertical, filter_support, muldiv255,
    plan_table, precompute_coeffs, premultiply_rgba, resize_nearest, resize_rgba8,
    unpremultiply_rgba, AxisTaps, Coeffs, Filter, Kernel, TapRow, CHANNELS,
    MAX_DECODED_IMAGE_BYTES, PRECISION_BITS, ROUND_BIAS,
};

fn sinc(x: f64) -> f64 {
    if x == 0.0 {
        1.0
    } else {
        let px = x * std::f64::consts::PI;
        px.sin() / px
    }
}

fn filter_eval(f: Filter, x: f64) -> f64 {
    let x = x.abs();
    match f {
        Filter::Nearest => 0.0,
        Filter::Bilinear => {
            if x < 1.0 {
                1.0 - x
            } else {
                0.0
            }
        }
        Filter::Bicubic => {
            let a = -0.5;
            if x < 1.0 {
                ((a + 2.0) * x - (a + 3.0)) * x * x + 1.0
            } else if x < 2.0 {
                (((x - 5.0) * x + 8.0) * x - 4.0) * a
            } else {
                0.0
            }
        }
        Filter::Lanczos3 => {
            if x < 3.0 {
                sinc(x) * sinc(x / 3.0)
            } else {
                0.0
            }
        }
    }
}

/// The taps of a filter along one axis. An axis that is refused for its size gets
/// no rows.
fn axis_taps(in_size: usize, out_size: usize, filter: Filter) -> AxisTaps {
    if in_size == 0 || out_size == 0 {
        return AxisTaps { support: 0, rows: Vec::new() };
    }
    let scale = in_size as f64 / out_size as f64;
    let filterscale = if scale < 1.0 { 1.0 } else { scale };
    let support = f64::from(filter_support(filter)) * filterscale;
    let reach = support.ceil() as usize;
    let mut rows = Vec::new();
    if plan_table(in_size, out_size, reach).is_ok() {
        for xx in 0..out_size {
            let center = (xx as f64 + 0.5) * scale;
            let lo = (center - support + 0.5).floor();
            let hi = (center + support + 0.5).floor();
            let start = if lo < 0.0 { 0 } else { lo as usize };
            let end = if hi < 0.0 { 0 } else { hi as usize };
            let n = end.min(in_size).saturating_sub(start);
            let raw: Vec<f64> = (0..n)
                .map(|i| {
                    filter_eval(filter, (start as f64 + i as f64 - center + 0.5) * (1.0 / filterscale))
                })
                .collect();
            let sum: f64 = raw.iter().sum();
            let taps = if sum != 0.0 {
                let inv = 1.0 / sum;
                raw.iter()
                    .map(|w| ((w * inv) * f64::from(1i32 << PRECISION_BITS)).round() as i32)
                    .collect()
            } else {
                vec![0; n]
            };
            rows.push(TapRow { start, end, taps });
        }
    }
    AxisTaps { support: reach, rows }
}

fn kernel(sw: usize, sh: usize, dw: usize, dh: usize, filter: Filter) -> Kernel {
    if filter == Filter::Nearest {
        Kernel::Nearest
    } else {
        Kernel::Convolution {
            horizontal: axis_taps(sw, dw, filter),
            vertical: axis_taps(sh, dh, filter),
        }
    }
}

fn resize(
    src: &[u8],
    sw: usize,
    sh: usize,
    dw: usize,
    dh: usize,
    filter: Filter,
) -> Result<Vec<u8>, Error> {
    resize_rgba8(src, sw, sh, dw, dh, &kernel(sw, sh, dw, dh, filter))
}

fn coeffs(in_size: usize, out_size: usize, filter: Filter) -> Result<Coeffs, Error> {
    precompute_coeffs(in_size, out_size, &axis_taps(in_size, out_size, filter))
}

/// The weighted sums written out one output byte at a time.
fn convolve_plainly(
    src: &[u8],
    src_w: usize,
    src_h: usize,
    h: &Coeffs,
    v: &Coeffs,
) -> Vec<u8> {
    let out_w = h.bounds.len();
    let mut inter = vec![0u8; src_h * out_w * CHANNELS];
    for y in 0..src_h {
        for x in 0..out_w {
            let (start, n) = h.bounds[x];
            for c in 0..CHANNELS {
                let mut acc = ROUND_BIAS;
                for i in 0..n {
                    acc += i32::from(src[(y * src_w + start + i) * CHANNELS + c])
                        * h.weights[x * h.ksize + i];
                }
                inter[(y * out_w + x) * CHANNELS + c] = clip8(acc);
            }
        }
    }
    let mut out = vec![0u8; v.bounds.len() * out_w * CHANNELS];
    for y in 0..v.bounds.len() {
        let (start, n) = v.bounds[y];
        for x in 0..out_w {
            for c in 0..CHANNELS {
                let mut acc = ROUND_BIAS;
                for i in 0..n {
                    acc += i32::from(inter[((start + i) * out_w + x) * CHANNELS + c])
                        * v.weights[y * v.ksize + i];
                }
                out[(y * out_w + x) * CHANNELS + c] = clip8(acc);
            }
        }
    }
    out
}

/// The whole resize, made of its stages.
fn resize_in_stages(
    src: &[u8],
    sw: usize,
    sh: usize,
    dw: usize,
    dh: usize,
    filter: Filter,
) -> Vec<u8> {
    if filter == Filter::Nearest {
        return resize_nearest(src, sw, sh, dw, dh, dw * dh * CHANNELS).unwrap();
    }
    let premultiplied = premultiply_rgba(src).unwrap();
    let h = coeffs(sw, dw, filter).unwrap();
    let v = coeffs(sh, dh, filter).unwrap();
    let mut dst = convolve_plainly(&premultiplied, sw, sh, &h, &v);
    unpremultiply_rgba(&mut dst);
    dst
}

/// A deterministic pseudo-random RGBA8 source.
fn make_src(w: usize, h: usize, seed: u32) -> Vec<u8> {
    let mut s = seed.wrapping_add(1);
    let mut v = Vec::with_capacity(w * h * CHANNELS);
    for _ in 0..w * h * CHANNELS {
        s = s.wrapping_mul(1_664_525).wrapping_add(1_013_904_223);
        v.push((s >> 24) as u8);
    }
    v
}

fn check_differential() {
    let filters = [Filter::Bilinear, Filter::Bicubic, Filter::Lanczos3, Filter::Nearest];
    let cases = [
        (4usize, 4usize, 2usize, 2usize),
        (3, 5, 7, 2),
        (5, 3, 2, 8),
        (8, 6, 4, 3),
        (2, 2, 9, 9),
        (5, 1, 2, 1),
        (1, 5, 1, 2),
        (7, 7, 7, 7),
        (16, 9, 5, 11),
    ];
    for (i, &(sw, sh, dw, dh)) in cases.iter().enumerate() {
        let src = make_src(sw, sh, i as u32 * 7 + 1);
        for &f in &filters {
            let whole = resize(&src, sw, sh, dw, dh, f).unwrap();
            let staged = resize_in_stages(&src, sw, sh, dw, dh, f);
            assert_eq!(whole, staged, "mismatch for {f:?} {sw}x{sh}->{dw}x{dh}");
        }
    }
}

fn zero_dimension_results() -> Vec<Result<Vec<u8>, Error>> {
    let src = [0u8; 4];
    [(0usize, 1usize, 2usize, 2usize), (1, 0, 2, 2), (1, 1, 0, 2), (1, 1, 2, 0)]
        .iter()
        .map(|&(sw, sh, dw, dh)| {
            resize(&src[..sw.max(1) * sh.max(1) * CHANNELS], sw, sh, dw, dh, Filter::Bilinear)
        })
        .collect()
}

fn check_output_length() {
    let src = make_src(8, 6, 3);
    for f in [Filter::Nearest, Filter::Bilinear, Filter::Bicubic, Filter::Lanczos3] {
        let out = resize(&src, 8, 6, 5, 4, f).unwrap();
        assert_eq!(out.len(), 5 * 4 * CHANNELS, "filter {f:?} output length");
    }
}

fn check_constant_image() {
    let mut src = Vec::with_capacity(6 * 6 * CHANNELS);
    for _ in 0..6 * 6 {
        src.extend_from_slice(&[123, 45, 200, 255]);
    }
    for f in [Filter::Bilinear, Filter::Bicubic, Filter::Lanczos3] {
        for &(dw, dh) in &[(3usize, 3usize), (9, 9), (4, 7)] {
            let out = resize(&src, 6, 6, dw, dh, f).unwrap();
            for px in out.chunks_exact(CHANNELS) {
                assert_eq!(px, &[123, 45, 200, 255], "constant must survive {f:?} -> {dw}x{dh}");
            }
        }
    }
}

fn check_muldiv255() {
    for c in 0u8..=255 {
        assert_eq!(muldiv255(c, 255), c, "opaque identity of {c}");
        assert_eq!(muldiv255(c, 0), 0, "transparent {c}");
    }
    assert_eq!(muldiv255(255, 128), 128);
    assert_eq!(muldiv255(200, 100), 78);
}

fn check_opaque_round_trip() {
    let src: Vec<u8> = (0u8..=255).flat_map(|c| [c, 255 - c, c / 2, 255]).collect();
    let pm = premultiply_rgba(&src).unwrap();
    assert_eq!(pm, src, "premultiply must be identity for opaque alpha");
    let mut round = pm;
    unpremultiply_rgba(&mut round);
    assert_eq!(round, src, "unpremultiply must be identity for opaque alpha");
}

fn check_transparent_pixel() {
    let src = vec![255u8, 128, 64, 0];
    let pm = premultiply_rgba(&src).unwrap();
    assert_eq!(pm, vec![0, 0, 0, 0]);
    let mut round = pm;
    unpremultiply_rgba(&mut round);
    assert_eq!(round, vec![0, 0, 0, 0]);
}

fn check_unpremultiply() {
    let mut buf = vec![64u8, 0, 0, 128];
    unpremultiply_rgba(&mut buf);
    assert_eq!(buf[0], 127, "255*64/128=127");
    assert_eq!(buf[3], 128, "alpha unchanged");
    let mut buf2 = vec![200u8, 0, 0, 100];
    unpremultiply_rgba(&mut buf2);
    assert_eq!(buf2[0], 255, "an over-alpha colour clamps to 255");
}

fn check_red_and_blue() {
    let src = [255u8, 0, 0, 0, 0, 0, 255, 255];
    for f in [Filter::Bilinear, Filter::Bicubic, Filter::Lanczos3] {
        let out = resize(&src, 2, 1, 1, 1, f).unwrap();
        assert_eq!(out, vec![0, 0, 255, 128], "{f:?}");
    }
    let nn = resize(&src, 2, 1, 1, 1, Filter::Nearest).unwrap();
    assert_eq!(nn, vec![0, 0, 255, 255]);
}

fn check_unit_weights() {
    let one = 1i64 << PRECISION_BITS;
    for f in [Filter::Bilinear, Filter::Bicubic, Filter::Lanczos3] {
        for &(insz, outsz) in &[(8usize, 3usize), (3, 8), (5, 5), (16, 4)] {
            let c = coeffs(insz, outsz, f).unwrap();
            for o in 0..outsz {
                let (_, n) = c.bounds[o];
                let s: i64 = c.weights[o * c.ksize..o * c.ksize + n]
                    .iter()
                    .map(|&w| i64::from(w))
                    .sum();
                let tol = n as i64 + 1;
                assert!(
                    (s - one).abs() <= tol,
                    "{f:?} {insz}->{outsz} out {o}: tap sum {s} not within {tol} of {one}"
                );
            }
        }
    }
}

fn is_cap<T>(r: &Result<T, Error>) -> bool {
    matches!(r, Err(Error::ShapeMismatch { cause: Cause::CapExceeded(_) }))
}

#[test]
fn resize_neon_matches_scalar_across_sizes_and_filters() {
    check_differential();
}

#[test]
fn resize_rejects_zero_dimensions() {
    for r in zero_dimension_results() {
        assert!(matches!(r, Err(Error::ShapeMismatch { .. })), "got {r:?}");
    }
}

#[test]
fn resize_rejects_src_buffer_length_mismatch() {
    let src = [0u8; 4];
    let r = resize(&src, 2, 2, 1, 1, Filter::Bilinear);
    assert!(matches!(r, Err(Error::ShapeMismatch { .. })), "got {r:?}");
}

#[test]
fn resize_rejects_overflowing_dst_product() {
    let src = [0u8; 4];
    let big = usize::MAX / 2 + 1;
    let r = resize(&src, 1, 1, big, big, Filter::Bilinear);
    assert!(matches!(r, Err(Error::ShapeMismatch { .. })), "got {r:?}");
}

#[test]
fn resize_rejects_skinny_to_wide_oversized_intermediate() {
    let src = vec![0u8; 131072 * CHANNELS];
    for f in [Filter::Bilinear, Filter::Bicubic, Filter::Lanczos3] {
        let r = resize(&src, 1, 131072, 131072, 1, f);
        match &r {
            Err(e @ Error::ShapeMismatch { .. }) => {
                assert!(e.message().contains("intermediate"), "{f:?}: {}", e.message());
            }
            _ => panic!("{f:?}: the intermediate image must be refused, got {r:?}"),
        }
    }
}

#[test]
fn resize_wide_to_skinny_does_not_abort() {
    let src = vec![0u8; 131072 * CHANNELS];
    for f in [Filter::Bilinear, Filter::Bicubic, Filter::Lanczos3] {
        match resize(&src, 131072, 1, 1, 131072, f) {
            Ok(out) => assert_eq!(out.len(), 131072 * CHANNELS, "{f:?}"),
            Err(Error::ShapeMismatch { .. }) => {}
            Err(other) => panic!("{f:?}: unexpected error {other:?}"),
        }
    }
}

#[test]
fn resize_rejects_huge_intermediate_with_tiny_ends() {
    let src = vec![7u8; 131072 * CHANNELS];
    let r = resize(&src, 1, 131072, 131072, 1, Filter::Bicubic);
    assert!(matches!(r, Err(Error::ShapeMismatch { .. })), "got {r:?}");
}

#[test]
fn resize_rejects_oversized_coefficient_table() {
    let r = coeffs(1, 200_000_000, Filter::Bilinear);
    assert!(matches!(r, Err(Error::ShapeMismatch { .. })));
    let src = vec![0u8; 4 * CHANNELS];
    let r = resize(&src, 1, 4, 200_000_000, 1, Filter::Bilinear);
    assert!(matches!(r, Err(Error::ShapeMismatch { .. })), "got {r:?}");
}

#[test]
fn resize_checked_buffer_bytes_caps_and_overflows() {
    assert_eq!(checked_buffer_bytes(1024, 4, "ok").unwrap(), 4096);
    assert_eq!(
        checked_buffer_bytes(MAX_DECODED_IMAGE_BYTES, 1, "at-cap").unwrap(),
        MAX_DECODED_IMAGE_BYTES
    );
    let r = checked_buffer_bytes(MAX_DECODED_IMAGE_BYTES + 1, 1, "over");
    assert!(matches!(r, Err(Error::ShapeMismatch { .. })));
    let r = checked_buffer_bytes(usize::MAX, 4, "overflow");
    assert!(matches!(r, Err(Error::ShapeMismatch { .. })));
}

#[test]
fn resize_output_length_is_exact() {
    check_output_length();
}

#[test]
fn resize_constant_image_is_preserved() {
    check_constant_image();
}

#[test]
fn resize_muldiv255_matches_pil_and_is_opaque_identity() {
    check_muldiv255();
}

#[test]
fn resize_premultiply_unpremultiply_opaque_is_identity() {
    check_opaque_round_trip();
}

#[test]
fn resize_premultiply_transparent_pixel_zeros_colour() {
    check_transparent_pixel();
}

#[test]
fn resize_unpremultiply_clips_and_divides_like_pil() {
    check_unpremultiply();
}

#[test]
fn resize_resize_premultiplied_transparent_red_opaque_blue() {
    check_red_and_blue();
}

#[test]
fn resize_precompute_coeffs_weights_sum_to_unity_fixedpoint() {
    check_unit_weights();
}

#[test]
fn tests_neon_matches_scalar_across_sizes_and_filters() {
    check_differential();
}

#[test]
fn tests_rejects_zero_dimensions() {
    for r in zero_dimension_results() {
        assert!(matches!(r, Err(Error::ShapeMismatch { cause: Cause::OutOfRange(_) })), "got {r:?}");
    }
}

#[test]
fn tests_rejects_src_buffer_length_mismatch() {
    let src = [0u8; 4];
    let r = resize(&src, 2, 2, 1, 1, Filter::Bilinear);
    assert!(matches!(r, Err(Error::ShapeMismatch { cause: Cause::LengthMismatch(_) })), "got {r:?}");
}

#[test]
fn tests_rejects_overflowing_dst_product() {
    let src = [0u8; 4];
    let big = usize::MAX / 2 + 1;
    let r = resize(&src, 1, 1, big, big, Filter::Bilinear);
    assert!(matches!(r, Err(Error::ShapeMismatch { cause: Cause::ArithmeticOverflow(_) })), "got {r:?}");
}

#[test]
fn tests_rejects_skinny_to_wide_oversized_intermediate() {
    let src = vec![0u8; 131072 * CHANNELS];
    for f in [Filter::Bilinear, Filter::Bicubic, Filter::Lanczos3] {
        let r = resize(&src, 1, 131072, 131072, 1, f);
        match &r {
            Err(Error::ShapeMismatch { cause: Cause::CapExceeded(p) }) => {
                assert_eq!(p.cap_name(), "MAX_DECODED_IMAGE_BYTES");
                assert!(p.context().contains("intermediate"), "{f:?}: {}", p.context());
            }
            _ => panic!("{f:?}: the intermediate image must be refused, got {r:?}"),
        }
    }
}

#[test]
fn tests_wide_to_skinny_does_not_abort() {
    let src = vec![0u8; 131072 * CHANNELS];
    for f in [Filter::Bilinear, Filter::Bicubic, Filter::Lanczos3] {
        match resize(&src, 131072, 1, 1, 131072, f) {
            Ok(out) => assert_eq!(out.len(), 131072 * CHANNELS, "{f:?}"),
            Err(Error::ShapeMismatch { cause: Cause::CapExceeded(_) }) | Err(Error::OutOfMemory) => {}
            Err(other) => panic!("{f:?}: unexpected error {other:?}"),
        }
    }
}

#[test]
fn tests_rejects_huge_intermediate_with_tiny_ends() {
    let src = vec![7u8; 131072 * CHANNELS];
    let r = resize(&src, 1, 131072, 131072, 1, Filter::Bicubic);
    assert!(is_cap(&r), "got {r:?}");
}

#[test]
fn tests_rejects_oversized_coefficient_table() {
    let r = coeffs(1, 200_000_000, Filter::Bilinear);
    assert!(is_cap(&r));
    let src = vec![0u8; 4 * CHANNELS];
    let r = resize(&src, 1, 4, 200_000_000, 1, Filter::Bilinear);
    assert!(is_cap(&r), "got {r:?}");
}

#[test]
fn tests_checked_buffer_bytes_caps_and_overflows() {
    assert_eq!(checked_buffer_bytes(1024, 4, "ok").unwrap(), 4096);
    assert_eq!(
        checked_buffer_bytes(MAX_DECODED_IMAGE_BYTES, 1, "at-cap").unwrap(),
        MAX_DECODED_IMAGE_BYTES
    );
    let r = checked_buffer_bytes(MAX_DECODED_IMAGE_BYTES + 1, 1, "over");
    assert!(is_cap(&r));
    let r = checked_buffer_bytes(usize::MAX, 4, "overflow");
    assert!(matches!(r, Err(Error::ShapeMismatch { cause: Cause::ArithmeticOverflow(_) })));
}

#[test]
fn tests_output_length_is_exact() {
    check_output_length();
}

#[test]
fn tests_constant_image_is_preserved() {
    check_constant_image();
}

#[test]
fn tests_muldiv255_matches_pil_and_is_opaque_identity() {
    check_muldiv255();
}

#[test]
fn tests_premultiply_unpremultiply_opaque_is_identity() {
    check_opaque_round_trip();
}

#[test]
fn tests_premultiply_transparent_pixel_zeros_colour() {
    check_transparent_pixel();
}

#[test]
fn tests_unpremultiply_clips_and_divides_like_pil() {
    check_unpremultiply();
}

#[test]
fn tests_resize_premultiplied_transparent_red_opaque_blue() {
    check_red_and_blue();
}

#[test]
fn tests_precompute_coeffs_weights_sum_to_unity_fixedpoint() {
    check_unit_weights();
}

#[test]
fn passes_match_the_weighted_sums() {
    let src = make_src(5, 3, 11);
    let h = coeffs(5, 2, Filter::Bicubic).unwrap();
    let v = coeffs(3, 4, Filter::Bicubic).unwrap();
    let inter = convolve_axis(&src, 5, 3, &h, Vec::new());
    let out = convolve_vertical(&inter, 2, 3, &v, Vec::new());
    assert_eq!(out, convolve_plainly(&src, 5, 3, &h, &v));
}

#[test]
fn clip8_rounds_down_and_clamps() {
    assert_eq!(clip8(-1), 0);
    assert_eq!(clip8(0), 0);
    assert_eq!(clip8((7 << PRECISION_BITS) + ROUND_BIAS), 7);
    assert_eq!(clip8(i32::MAX), 255);
    assert_eq!(clip8(i32::MIN), 0);
}

#[test]
fn nearest_keeps_an_image_of_the_same_size() {
    let src = make_src(4, 3, 9);
    assert_eq!(resize(&src, 4, 3, 4, 3, Filter::Nearest).unwrap(), src);
}

#[test]
fn convolution_keeps_an_opaque_image_of_the_same_size() {
    let mut src = make_src(4, 3, 9);
    for px in src.chunks_exact_mut(CHANNELS) {
        px[3] = 255;
    }
    for f in [Filter::Bilinear, Filter::Bicubic, Filter::Lanczos3] {
        assert_eq!(resize(&src, 4, 3, 4, 3, f).unwrap(), src, "{f:?}");
    }
}

#[test]
fn taps_that_do_not_fit_their_window_are_refused() {
    let axis = AxisTaps { support: 1, rows: vec![TapRow { start: 0, end: 2, taps: vec![1] }] };
    let r = precompute_coeffs(2, 1, &axis);
    assert!(matches!(r, Err(Error::ShapeMismatch { cause: Cause::InvariantViolation(_) })));
    let axis = AxisTaps { support: 1, rows: Vec::new() };
    let r = precompute_coeffs(2, 1, &axis);
    assert!(matches!(r, Err(Error::ShapeMismatch { cause: Cause::LengthMismatch(_) })));
}

#[test]
fn filter_radii() {
    assert_eq!(filter_support(Filter::Nearest), 0);
    assert_eq!(filter_support(Filter::Bilinear), 1);
    assert_eq!(filter_support(Filter::Bicubic), 2);
    assert_eq!(filter_support(Filter::Lanczos3), 3);
}

#[test]
fn windows_start_in_their_input() {
    let empty = |start| AxisTaps { support: 1, rows: vec![TapRow { start, end: 0, taps: vec![] }] };
    let coeffs = precompute_coeffs(2, 1, &empty(2)).unwrap();
    assert_eq!(coeffs.bounds, vec![(2, 0)]);
    let r = precompute_coeffs(2, 1, &empty(3));
    assert!(matches!(r, Err(Error::ShapeMismatch { cause: Cause::InvariantViolation(_) })));
}

#[test]
fn taps_of_few_pixels_weigh_less_than_two() {
    for filter in [Filter::Bilinear, Filter::Bicubic, Filter::Lanczos3] {
        for in_size in 1..6 {
            for out_size in [1, 2, 3, 7, 64] {
                let axis = axis_taps(in_size, out_size, filter);
                assert!(precompute_coeffs(in_size, out_size, &axis).is_ok(), "{filter:?}");
            }
        }
    }
}

#[test]
fn images_without_pixels_are_premultiplied() {
    assert!(premultiply_rgba(&[]).unwrap().is_empty());
}
