//! Weights by their names, arrays, texts, images, and the words of a refusal.

use mlxrs::array::{element_count, exchange, Array};
use mlxrs::buffer::{push_range, push_repeated, reserve_or_error, try_with_capacity};
use mlxrs::error::{
    cap_exceeded, invariant_violation, length_mismatch, not_divisible, out_of_range, overflow,
    rank_mismatch, CapExceededPayload, Error,
};
use mlxrs::model_validation::{
    checked_add, checked_mul, isqrt_exact, pin_i32, pin_str, require_cardinality,
    require_divisible, require_in_range, require_positive, require_positive_finite,
    require_positive_u32, Single,
};
use mlxrs::text::{
    after_prefix, contains_text, joined, push_decimal, push_repeated_str, replace_text,
    same_text, try_string_with_capacity,
};
use mlxrs::vlm::image::{patch_grid, resize_rgb_to_rgba};
use mlxrs::vlm::resize::Kernel;
use mlxrs::weights::WeightMap;

fn map(keys: &[&str]) -> WeightMap<usize> {
    let mut weights = WeightMap::new();
    for (i, key) in keys.iter().enumerate() {
        weights.insert_unique(key.to_string(), i, "test").unwrap();
    }
    weights
}

#[test]
fn weights_are_taken_once() {
    let mut w = map(&["a", "b"]);
    assert_eq!(w.get("a"), Some(&0));
    assert_eq!(w.take_weight("test", "a").unwrap(), 0);
    let err = w.take_weight("test", "a").unwrap_err();
    assert!(matches!(&err, Error::MissingKey(p) if p.key == "a"), "got {err:?}");
    assert_eq!(w.remove("b"), Some(1));
    assert_eq!(w.remove("b"), None);
    assert!(w.is_empty());
}

#[test]
fn a_name_stands_for_one_weight() {
    let mut w = map(&["a"]);
    let err = w.insert_unique("a".to_string(), 5, "test").unwrap_err();
    assert!(matches!(err, Error::KeyCollision(_)), "got {err:?}");
    assert_eq!(w.get("a"), Some(&0));
}

#[test]
fn flags_say_whether_a_weight_has_to_be_there() {
    let mut w = map(&["bias"]);
    assert!(matches!(w.take_if("test", false, "bias"), Err(Error::KeyCollision(_))));
    assert_eq!(w.take_if("test", true, "bias").unwrap(), Some(0));
    assert!(matches!(w.take_if("test", true, "bias"), Err(Error::MissingKey(_))));
    assert_eq!(w.take_if("test", false, "bias").unwrap(), None);
}

#[test]
fn a_prefix_parts_the_weights() {
    let mut w = map(&["tower.a", "other.a", "tower.b"]);
    let tower = w.take_prefixed("tower.", "test").unwrap();
    assert_eq!(tower.get("a"), Some(&0));
    assert_eq!(tower.get("b"), Some(&2));
    assert_eq!(w.get("other.a"), Some(&1));
    assert_eq!(w.into_entries().len(), 1);
    assert_eq!(tower.into_entries().len(), 2);
}

#[test]
fn weights_are_dropped_by_a_part_of_their_name() {
    let mut w = map(&["x.position_ids", "position", "y.position_ids.z"]);
    w.drop_containing("position_ids");
    assert_eq!(w.into_entries(), vec![("position".to_string(), 1)]);
}

#[test]
fn arrays_have_as_many_items_as_their_shape_says() {
    let a = Array::from_vec(vec![1, 2, 3, 4, 5, 6], vec![2, 3]).unwrap();
    assert_eq!((a.ndim(), a.len()), (2, 6));
    let err = Array::from_vec(vec![1, 2, 3], vec![2, 2]).unwrap_err();
    assert!(matches!(err, Error::LengthMismatch(_)), "got {err:?}");
    assert_eq!(element_count(&[2, 3, 4]), Some(24));
    assert_eq!(element_count(&[usize::MAX, 2]), None);
    assert_eq!(element_count(&[]), Some(1));
}

#[test]
fn exchanging_twice_changes_nothing() {
    let data: Vec<i32> = (0..12).collect();
    let once = exchange(&data, 1, 2, 3, 2, Vec::new());
    assert_eq!(once, vec![0, 1, 4, 5, 8, 9, 2, 3, 6, 7, 10, 11]);
    assert_eq!(exchange(&once, 1, 3, 2, 2, Vec::new()), data);
}

#[test]
fn buffers_grow_by_copies() {
    let mut buffer: Vec<u8> = try_with_capacity(4).unwrap();
    push_repeated(&mut buffer, 7, 2);
    push_range(&mut buffer, &[1, 2, 3, 4], 1, 3);
    assert_eq!(buffer, vec![7, 7, 2, 3]);
    assert!(matches!(try_with_capacity::<u64>(usize::MAX), Err(Error::OutOfMemory)));
    assert!(matches!(
        try_with_capacity::<u8>(isize::MAX as usize + 1),
        Err(Error::OutOfMemory)
    ));
    // No bytes are always granted, whatever the number of items.
    assert!(try_with_capacity::<u64>(0).unwrap().is_empty());
    assert!(try_with_capacity::<()>(usize::MAX).is_ok());
    assert!(reserve_or_error::<u64>(0, "buffer").unwrap().is_empty());
    assert!(try_with_capacity::<u64>(3).unwrap().capacity() >= 3);
    assert!(matches!(
        reserve_or_error::<u64>(usize::MAX, "buffer"),
        Err(Error::AllocFailure { context: "buffer" })
    ));
}

#[test]
fn texts_are_built_and_searched() {
    let mut s = try_string_with_capacity(8).unwrap();
    push_decimal(&mut s, 1907);
    push_repeated_str(&mut s, "ab", 2);
    assert_eq!(s, "1907abab");
    assert!(matches!(try_string_with_capacity(usize::MAX), Err(Error::OutOfMemory)));
    assert_eq!(try_string_with_capacity(0).unwrap(), "");
    assert!(try_string_with_capacity(5).unwrap().capacity() >= 5);
    assert_eq!(joined("ab", "cd"), "abcd");
    assert!(same_text("ab", "ab"));
    assert!(!same_text("ab", "aB"));
    assert!(contains_text("hello", "ell"));
    assert!(!contains_text("hello", "elo"));
    assert_eq!(after_prefix("model.x", "model."), Some("x"));
    assert_eq!(after_prefix("modal.x", "model."), None);
    assert_eq!(replace_text("aXbXXc", "X", "--"), "a--b----c");
    assert_eq!(replace_text("aaa", "aa", "b"), "ba");
}

#[test]
fn numbers_are_checked() {
    assert!(require_positive("n", 1).is_ok());
    assert!(matches!(require_positive("n", 0), Err(Error::OutOfRange(_))));
    assert!(matches!(require_positive_u32("n", 0), Err(Error::OutOfRange(_))));
    assert!(require_in_range("n", 5, 1, 5).is_ok());
    assert!(matches!(require_in_range("n", 6, 1, 5), Err(Error::OutOfRange(_))));
    assert!(matches!(require_cardinality("n", 6, 5), Err(Error::CapExceeded(_))));
    assert!(matches!(require_cardinality("n", 0, 5), Err(Error::OutOfRange(_))));
    assert!(matches!(require_divisible("n", 7, 2), Err(Error::DivisibilityConstraint(_))));
    assert!(matches!(pin_i32("n", 4, 3), Err(Error::OutOfRange(_))));
    assert!(matches!(pin_str("n", false, "x", "y"), Err(Error::UnknownEnumValue(_))));
    assert_eq!(checked_mul("n", 6, 7).unwrap(), 42);
    assert!(matches!(checked_mul("n", i32::MAX, 2), Err(Error::ArithmeticOverflow(_))));
    assert_eq!(checked_add("n", 6, 7).unwrap(), 13);
    assert!(matches!(checked_add("n", i32::MAX, 1), Err(Error::ArithmeticOverflow(_))));
    assert_eq!(isqrt_exact("n", 1024 * 1024).unwrap(), 1024);
    assert!(matches!(isqrt_exact("n", 10), Err(Error::OutOfRange(_))));
    assert!(require_positive_finite("n", Single::from_bits(1.5f32.to_bits())).is_ok());
    let least = Single::from_bits(1);
    assert!(matches!(least, Single::Positive { mantissa: 1, exponent: -149 }));
    let minus = Single::from_bits((-0.0f32).to_bits());
    assert!(matches!(require_positive_finite("n", minus), Err(Error::OutOfRange(_))));
}

#[test]
fn images_keep_their_bytes_when_their_size_is_kept() {
    let rgb = [1, 2, 3, 4, 5, 6];
    let rgba = resize_rgb_to_rgba(&rgb, 2, 1, 1, 2, &Kernel::Nearest).unwrap();
    assert_eq!(rgba, vec![1, 2, 3, 255, 4, 5, 6, 255]);
    let doubled = resize_rgb_to_rgba(&rgb, 2, 1, 1, 4, &Kernel::Nearest).unwrap();
    assert_eq!(doubled, vec![1, 2, 3, 255, 1, 2, 3, 255, 4, 5, 6, 255, 4, 5, 6, 255]);
}

#[test]
fn the_largest_grid_fills_the_budget() {
    assert_eq!(patch_grid(100, 100, 10, 1), (1, 1));
    assert_eq!(patch_grid(10, 10, 10, 9), (3, 3));
    let (rows, cols) = patch_grid(480, 640, 16, 256);
    assert!(rows * cols <= 256);
    assert_eq!(patch_grid(640, 480, 16, 256), (cols, rows));
}

#[test]
fn refusals_say_what_was_refused() {
    let cases: [(Error, &str); 7] = [
        (out_of_range("width", "must be > 0", -3), "width"),
        (length_mismatch("rows", 3, 4), "rows"),
        (rank_mismatch("a matrix", 3), "a matrix"),
        (overflow("area", "i32", 9, 9), "area"),
        (cap_exceeded("tiles", "MAX_TILES", 4, 5), "MAX_TILES"),
        (invariant_violation("span", "must be ordered"), "must be ordered"),
        (not_divisible("side", 7, 2), "side"),
    ];
    for (error, part) in cases {
        assert!(error.message().contains(part), "{} lacks {part}", error.message());
    }
    let payload =
        CapExceededPayload { context: "tiles", cap_name: "MAX_TILES", cap: 4, observed: 5 };
    assert_eq!((payload.context(), payload.cap_name()), ("tiles", "MAX_TILES"));
}

#[test]
fn maps_without_weights_need_no_memory() {
    let mut w = map(&[]);
    assert_eq!(w.len(), 0);
    assert!(w.take_prefixed("tower.", "test").unwrap().is_empty());
    assert_eq!(map(&["a", "b", "c"]).len(), 3);
}
