//! Finding and placing image tokens in a prompt, and the mask of the result.

use mlxrs::error::{Cause, Error};
use mlxrs::vlm::prompt::{
    assemble_multimodal_prompt, build_multimodal_mask, build_multimodal_mask_with_past,
    insert_image_tokens, locate_image_tokens, MarkerPolicy,
};

const MARKER: u32 = 7;
const IMAGE: u32 = 99;

#[test]
fn runs_of_image_tokens_are_located() {
    let tokens = [1, 99, 99, 2, 99, 3];
    assert_eq!(locate_image_tokens(&tokens, IMAGE), vec![(1, 3), (4, 5)]);
    assert_eq!(locate_image_tokens(&[1, 2], IMAGE), vec![]);
    assert_eq!(locate_image_tokens(&[99, 99], IMAGE), vec![(0, 2)]);
    assert_eq!(locate_image_tokens(&[], IMAGE), vec![]);
}

#[test]
fn a_marker_run_is_replaced() {
    let out =
        insert_image_tokens(&[1, 7, 7, 2], 2, MARKER, IMAGE, 3, MarkerPolicy::Required).unwrap();
    assert_eq!(out, vec![1, 99, 99, 99, 99, 99, 99, 2]);
}

#[test]
fn prompts_without_images_are_kept() {
    let text = [1, 2, 3];
    let out = insert_image_tokens(&text, 0, MARKER, IMAGE, 0, MarkerPolicy::Required).unwrap();
    assert_eq!(out, text);
}

#[test]
fn placeholders_go_in_front_where_the_policy_says_so() {
    let out =
        insert_image_tokens(&[1, 2], 1, MARKER, IMAGE, 2, MarkerPolicy::PrependIfAbsent).unwrap();
    assert_eq!(out, vec![99, 99, 1, 2]);
}

#[test]
fn a_missing_marker_is_named() {
    let err = insert_image_tokens(&[1, 2], 1, MARKER, IMAGE, 2, MarkerPolicy::Required)
        .unwrap_err();
    assert!(matches!(err, Error::ShapeMismatch { cause: Cause::MissingField(_) }), "got {err:?}");
    assert!(err.message().contains("no image_marker_id"), "got {}", err.message());
}

#[test]
fn marker_runs_have_to_fit_the_images() {
    let three = insert_image_tokens(&[7, 7, 7], 2, MARKER, IMAGE, 1, MarkerPolicy::Required)
        .unwrap_err();
    assert!(
        matches!(three, Error::ShapeMismatch { cause: Cause::LengthMismatch(_) }),
        "got {three:?}"
    );
    let apart = insert_image_tokens(&[7, 1, 7], 1, MARKER, IMAGE, 1, MarkerPolicy::Required)
        .unwrap_err();
    assert!(
        matches!(apart, Error::ShapeMismatch { cause: Cause::InvariantViolation(_) }),
        "got {apart:?}"
    );
    let none = insert_image_tokens(&[7], 1, MARKER, IMAGE, 0, MarkerPolicy::Required)
        .unwrap_err();
    assert!(
        matches!(none, Error::ShapeMismatch { cause: Cause::InvariantViolation(_) }),
        "got {none:?}"
    );
    let huge =
        insert_image_tokens(&[7, 7], 2, MARKER, IMAGE, usize::MAX, MarkerPolicy::Required)
            .unwrap_err();
    assert!(
        matches!(huge, Error::ShapeMismatch { cause: Cause::ArithmeticOverflow(_) }),
        "got {huge:?}"
    );
}

#[test]
fn masks_are_causal_but_for_images() {
    // One text token, an image of two tokens, one text token.
    let mask = build_multimodal_mask(4, &[(1, 3)]).unwrap();
    assert_eq!(*mask.shape(), vec![1, 1, 4, 4]);
    let expected = [
        [true, false, false, false],
        [true, true, true, false],
        [true, true, true, false],
        [true, true, true, true],
    ];
    assert_eq!(*mask.data(), expected.concat());
}

#[test]
fn past_keys_are_attended() {
    let mask = build_multimodal_mask_with_past(2, 3, &[]).unwrap();
    assert_eq!(*mask.shape(), vec![1, 1, 2, 5]);
    let expected = [[true, true, true, true, false], [true, true, true, true, true]];
    assert_eq!(*mask.data(), expected.concat());
}

#[test]
fn unsound_spans_are_refused() {
    for spans in [vec![(2, 1)], vec![(0, 5)], vec![(0, 2), (1, 3)], vec![(1, 1)]] {
        let r = build_multimodal_mask(4, &spans);
        assert!(r.is_err(), "spans {spans:?} gave {r:?}");
    }
}

#[test]
fn assembled_prompts_say_where_their_images_are() {
    let prompt = assemble_multimodal_prompt(
        &[1, 7, 7, 2],
        2,
        MARKER,
        IMAGE,
        2,
        MarkerPolicy::Required,
    )
    .unwrap();
    assert_eq!(prompt.tokens, vec![1, 99, 99, 99, 99, 2]);
    assert_eq!(prompt.image_spans, vec![(1, 3), (3, 5)]);
    assert_eq!(*prompt.attention_mask.shape(), vec![1, 1, 6, 6]);
    // The second image sees the first; the first does not see the second.
    assert!(prompt.attention_mask.data()[3 * 6 + 1]);
    assert!(!prompt.attention_mask.data()[6 + 3]);
}

#[test]
fn policies_have_names() {
    assert_eq!(MarkerPolicy::Required.as_str(), "required");
    assert_eq!(MarkerPolicy::PrependIfAbsent.as_str(), "prepend_if_absent");
    assert!(MarkerPolicy::Required.is_required());
    assert!(!MarkerPolicy::Required.is_prepend_if_absent());
    assert!(MarkerPolicy::PrependIfAbsent.is_prepend_if_absent());
}

#[test]
fn two_images_of_three_tokens_each() {
    let tokens = vec![10, 99, 99, 99, 20, 30, 99, 99, 99, 40];
    assert_eq!(locate_image_tokens(&tokens, 99), vec![(1, 4), (6, 9)]);
    let out =
        insert_image_tokens(&[1, 2, 7, 3, 4], 1, 7, 99, 3, MarkerPolicy::Required).unwrap();
    assert_eq!(out, vec![1, 2, 99, 99, 99, 3, 4]);
    let out = insert_image_tokens(&[1, 2, 3], 1, 7, 99, 3, MarkerPolicy::PrependIfAbsent)
        .unwrap();
    assert_eq!(out, vec![99, 99, 99, 1, 2, 3]);
    // Without images a marker stays where it is.
    let out = insert_image_tokens(&[1, 7, 2], 0, 7, 99, 3, MarkerPolicy::Required).unwrap();
    assert_eq!(out, vec![1, 7, 2]);
    let p = assemble_multimodal_prompt(&[1, 2, 7, 7, 3], 2, 7, 99, 3, MarkerPolicy::Required)
        .unwrap();
    assert_eq!(p.tokens, vec![1, 2, 99, 99, 99, 99, 99, 99, 3]);
    assert_eq!(p.image_spans, vec![(2, 5), (5, 8)]);
    assert_eq!(*p.attention_mask.shape(), vec![1, 1, 9, 9]);
}

#[test]
fn text_alone_is_causal() {
    let mask = build_multimodal_mask(4, &[]).unwrap();
    assert_eq!(*mask.shape(), vec![1, 1, 4, 4]);
    for q in 0..4 {
        for k in 0..4 {
            assert_eq!(mask.data()[q * 4 + k], k <= q);
        }
    }
}

#[test]
fn empty_prompts_need_no_memory() {
    let policy = MarkerPolicy::Required;
    assert!(insert_image_tokens(&[], 0, MARKER, IMAGE, 4, policy).unwrap().is_empty());
    // An image that stands for no tokens would be lost.
    assert!(insert_image_tokens(&[7], 1, MARKER, IMAGE, 0, policy).is_err());
    let prompt = assemble_multimodal_prompt(&[], 0, MARKER, IMAGE, 4, policy).unwrap();
    assert!(prompt.tokens.is_empty() && prompt.image_spans.is_empty());
    assert_eq!(*prompt.attention_mask.shape(), vec![1, 1, 0, 0]);
    assert_eq!(*build_multimodal_mask(0, &[]).unwrap().shape(), vec![1, 1, 0, 0]);
    let mask = build_multimodal_mask_with_past(0, 5, &[]).unwrap();
    assert_eq!(*mask.shape(), vec![1, 1, 0, 5]);
}

#[test]
fn keys_past_the_integer_range_are_refused() {
    let most = i32::MAX as usize;
    for (seq_len, past_len) in [(0, most + 1), (1, most)] {
        let err = build_multimodal_mask_with_past(seq_len, past_len, &[]).unwrap_err();
        assert!(
            matches!(err, Error::ShapeMismatch { cause: Cause::OutOfRange(_) }),
            "got {err:?}"
        );
    }
    assert!(build_multimodal_mask_with_past(0, most, &[]).is_ok());
    // An empty chunk holds no span, however many keys come before it.
    let err = build_multimodal_mask_with_past(0, most + 1, &[(0, 1)]).unwrap_err();
    assert!(
        matches!(err, Error::ShapeMismatch { cause: Cause::InvariantViolation(_) }),
        "got {err:?}"
    );
}
