//! Aligning the sides of frames, choosing frames, and stacking them.

use mlxrs::array::Array;
use mlxrs::error::{Cause, Error};
use mlxrs::vlm::video::{
    ceil_by_factor, floor_by_factor, plan_frame_size, process_frames, round_by_factor,
    sample_frame_indices, smart_nframes, smart_resize, Frame, FrameSampling, Layout, Quotients,
    RateBudget, ResizeStep, FPS_MAX_FRAMES, FPS_MIN_FRAMES, IMAGE_FACTOR, MAX_PIXELS, MIN_PIXELS,
};

#[test]
fn numbers_are_aligned_to_multiples() {
    assert_eq!(round_by_factor(100, 28).unwrap(), 112);
    assert_eq!(ceil_by_factor(100, 28).unwrap(), 112);
    assert_eq!(floor_by_factor(100, 28).unwrap(), 84);
    // Half-way cases go to the even quotient.
    assert_eq!(round_by_factor(14, 28).unwrap(), 0);
    assert_eq!(round_by_factor(42, 28).unwrap(), 56);
    assert_eq!(floor_by_factor(-1, 28).unwrap(), -28);
    assert_eq!(ceil_by_factor(-1, 28).unwrap(), 0);
    assert!(round_by_factor(1, 0).is_err());
    assert!(ceil_by_factor(i64::MAX, 28).is_err());
}

/// The quotients of the sides scaled by the root of a ratio of areas.
fn quotients(h: i64, w: i64, factor: i64, ratio: f64, up: bool) -> Quotients {
    let beta = ratio.sqrt();
    let side = |n: i64| {
        let scaled = if up { n as f64 * beta } else { n as f64 / beta };
        let q = scaled / factor as f64;
        Some(if up { q.ceil() } else { q.floor() } as i64)
    };
    Quotients { height: side(h), width: side(w) }
}

fn resized(h: i64, w: i64, min: i64, max: i64) -> Result<(i64, i64), Error> {
    let area = h as f64 * w as f64;
    let shrunk = quotients(h, w, IMAGE_FACTOR, area / max as f64, false);
    let grown = quotients(h, w, IMAGE_FACTOR, min as f64 / area, true);
    smart_resize(h, w, IMAGE_FACTOR, min, max, shrunk, grown)
}

#[test]
fn frames_are_resized_into_their_budget() {
    assert_eq!(resized(100, 200, MIN_PIXELS, MAX_PIXELS).unwrap(), (112, 196));
    let (h, w) = resized(1000, 2000, MIN_PIXELS, 100 * 28 * 28).unwrap();
    assert_eq!((h % 28, w % 28), (0, 0));
    assert!(h * w <= 100 * 28 * 28);
    let (h, w) = resized(30, 30, 100 * 28 * 28, MAX_PIXELS).unwrap();
    assert!(h * w >= 100 * 28 * 28);
    assert_eq!((h % 28, w % 28), (0, 0));
}

#[test]
fn extreme_frames_are_refused() {
    let err = resized(10, 4000, MIN_PIXELS, MAX_PIXELS).unwrap_err();
    assert!(matches!(err, Error::ShapeMismatch { .. }), "got {err:?}");
    assert!(resized(0, 10, MIN_PIXELS, MAX_PIXELS).is_err());
}

#[test]
fn plans_say_which_way_a_frame_goes() {
    let plan = |h, w| plan_frame_size(h, w, 28, 4 * 784, 100 * 784).unwrap();
    assert!(matches!(plan(100, 200), ResizeStep::Keep { height: 112, width: 196 }));
    assert!(matches!(plan(1000, 1000), ResizeStep::Shrink));
    assert!(matches!(plan(28, 28), ResizeStep::Grow));
}

#[test]
fn frame_counts_are_even_and_within_the_video() {
    assert_eq!(smart_nframes(FrameSampling::Fixed { nframes: 5 }, 100, true).unwrap(), 4);
    assert!(smart_nframes(FrameSampling::Fixed { nframes: 200 }, 100, true).is_err());
    assert!(smart_nframes(FrameSampling::Fixed { nframes: 0 }, 100, true).is_err());
    let fps = |frames| FrameSampling::Fps {
        budget: RateBudget::Frames(frames),
        min_frames: FPS_MIN_FRAMES,
        max_frames: None,
    };
    assert_eq!(smart_nframes(fps(21), 100, true).unwrap(), 20);
    assert_eq!(smart_nframes(fps(1), 100, true).unwrap(), 4);
    assert_eq!(smart_nframes(fps(5000), 100_000, true).unwrap(), FPS_MAX_FRAMES);
    assert_eq!(smart_nframes(fps(5000), 101, true).unwrap(), 100);
    let bad = FrameSampling::Fps {
        budget: RateBudget::InvalidRate,
        min_frames: FPS_MIN_FRAMES,
        max_frames: None,
    };
    assert!(smart_nframes(bad, 100, true).is_err());
    assert!(smart_nframes(fps(4), 0, true).is_err());
}

#[test]
fn videos_without_frames_or_rate_are_refused() {
    let rate = FrameSampling::Fps {
        budget: RateBudget::Frames(4),
        min_frames: FPS_MIN_FRAMES,
        max_frames: None,
    };
    for sampling in [FrameSampling::Fixed { nframes: 4 }, rate] {
        assert_eq!(smart_nframes(sampling, 10, true).unwrap(), 4);
        for (total, valid) in [(10, false), (0, true), (-3, true), (0, false)] {
            let err = smart_nframes(sampling, total, valid).unwrap_err();
            assert!(matches!(err, Error::ShapeMismatch { .. }), "got {err:?}");
        }
    }
}

#[test]
fn indices_span_the_video() {
    let points = |total: i64, n: i64| -> Vec<i64> {
        (0..n - 1)
            .map(|i| (i as f64 * ((total - 1) as f64 / (n - 1) as f64)).round_ties_even() as i64)
            .collect()
    };
    assert_eq!(sample_frame_indices(10, 4, &points(10, 4)).unwrap(), vec![0, 3, 6, 9]);
    assert_eq!(sample_frame_indices(10, 1, &[]).unwrap(), vec![0]);
    assert_eq!(sample_frame_indices(3, 3, &[-5, 70]).unwrap(), vec![0, 2, 2]);
    // The first index is the first frame, whatever its point says.
    assert_eq!(sample_frame_indices(9, 3, &[4, 4]).unwrap(), vec![0, 4, 8]);
    assert!(sample_frame_indices(0, 1, &[]).is_err());
    assert!(sample_frame_indices(10, 0, &[]).is_err());
    assert!(sample_frame_indices(10, 4, &[0]).is_err());
}

fn frame(start: i32, shape: &[usize]) -> Array<i32> {
    let len: usize = shape.iter().product();
    Array::from_vec((start..start + len as i32).collect(), shape.to_vec()).unwrap()
}

#[test]
fn frames_are_stacked_along_time() {
    let frames = vec![Ok(frame(0, &[2, 1, 3])), Ok(frame(10, &[2, 1, 3]))];
    let stacked = process_frames(frames, Layout::Hwc).unwrap();
    assert_eq!(*stacked.shape(), vec![2, 2, 1, 3]);
    assert_eq!(*stacked.data(), vec![0, 1, 2, 3, 4, 5, 10, 11, 12, 13, 14, 15]);
    let planar = process_frames(vec![Ok(frame(0, &[3, 1, 2]))], Layout::Chw).unwrap_err();
    assert!(matches!(planar, Error::Backend { .. }), "got {planar:?}");
}

#[test]
fn frames_have_to_agree() {
    let none: Vec<Frame<i32>> = Vec::new();
    let err = process_frames(none, Layout::Hwc).unwrap_err();
    assert!(
        matches!(err, Error::ShapeMismatch { cause: Cause::EmptyInput { .. } }),
        "got {err:?}"
    );
    let differ = vec![Ok(frame(0, &[2, 1, 3])), Ok(frame(0, &[1, 2, 3]))];
    assert!(process_frames(differ, Layout::Hwc).is_err());
}

#[test]
fn the_first_refused_frame_refuses_the_stack() {
    let frames = || -> Vec<Frame<i32>> {
        vec![
            Ok(frame(0, &[1, 1, 3])),
            Err(Error::OutOfMemory),
            Ok(frame(0, &[2, 1, 3])),
            Err(Error::AllocFailure { context: "frame" }),
        ]
    };
    let err = process_frames(frames(), Layout::Hwc).unwrap_err();
    assert!(matches!(err, Error::OutOfMemory), "got {err:?}");
    // The order of the axes is looked at before the frames are.
    let err = process_frames(frames(), Layout::Bchw).unwrap_err();
    assert!(matches!(err, Error::Backend { .. }), "got {err:?}");
}

#[test]
fn stacks_without_items_need_no_memory() {
    let frames = vec![Ok(frame(0, &[0, 4, 3])), Ok(frame(0, &[0, 4, 3]))];
    let stacked = process_frames(frames, Layout::Hwc).unwrap();
    assert_eq!(*stacked.shape(), vec![2, 0, 4, 3]);
    assert!(stacked.data().is_empty());
}

#[test]
fn frames_laid_on_their_side_are_resized_alike() {
    for (h, w, min, max) in [
        (100, 200, MIN_PIXELS, MAX_PIXELS),
        (1000, 2000, MIN_PIXELS, 100 * 28 * 28),
        (30, 50, 100 * 28 * 28, MAX_PIXELS),
    ] {
        let (a, b) = resized(h, w, min, max).unwrap();
        assert_eq!(resized(w, h, min, max).unwrap(), (b, a));
    }
    assert!(resized(10, 4000, MIN_PIXELS, MAX_PIXELS).is_err());
    assert!(resized(4000, 10, MIN_PIXELS, MAX_PIXELS).is_err());
}

#[test]
fn small_frames_grow_under_any_upper_budget() {
    assert_eq!(resized(1, 1, 3136, i64::MAX).unwrap(), (56, 56));
}

#[test]
fn sides_that_vanish_are_refused() {
    // The shorter side would be scaled down to nothing.
    assert!(resized(537, 4962, 0, 1646).is_err());
    // The smallest aligned size does not fit the budget, by one pixel.
    let factor: i64 = 3_037_000_499;
    let none = Quotients { height: None, width: None };
    let r = smart_resize(100, 100, factor, 0, factor * factor - 1, none, none);
    assert!(r.is_err());
}

#[test]
fn points_come_from_one_step() {
    // The step is rounded before it is multiplied: the middle point falls just
    // past a half.
    let step = 25.0 / 22.0;
    let points: Vec<i64> =
        (0..22).map(|i| (step * f64::from(i)).round_ties_even() as i64).collect();
    let indices = sample_frame_indices(26, 23, &points).unwrap();
    assert_eq!(indices[11], 13);
    assert_eq!(indices[22], 25);
}
