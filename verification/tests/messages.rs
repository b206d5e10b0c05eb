//! Chat turns in the formats of the model families.

use mlxrs::error::{Cause, Error};
use mlxrs::vlm::messages::{
    get_message_json, ContentItem, FormatOpts, FormattedMessage, Message, MessageBuilder,
    MessageContent, MessageFormat, MessageFormatter, MAX_MESSAGE_FORMAT_ITEMS,
    MESSAGE_FORMAT_VARIANTS, MODEL_CONFIG,
};

fn opts(num_images: usize, num_audios: usize) -> FormatOpts {
    let mut opts = FormatOpts::get_message_default();
    opts.num_images = num_images;
    opts.num_audios = num_audios;
    opts
}

fn format(model: &str, opts: &FormatOpts) -> FormattedMessage {
    MessageFormatter::for_model(model).unwrap().format_message("Hi", opts).unwrap()
}

fn user(content: MessageContent) -> FormattedMessage {
    FormattedMessage::Message(Message { role: "user".to_string(), content })
}

fn list(items: Vec<ContentItem>) -> FormattedMessage {
    user(MessageContent::Items(items))
}

fn line(text: &str) -> FormattedMessage {
    user(MessageContent::Text(text.to_string()))
}

fn hi() -> ContentItem {
    ContentItem::Text { text: "Hi".to_string() }
}

#[test]
fn every_format_announces_its_images() {
    let two = opts(2, 1);
    let image = || ContentItem::Image;
    assert_eq!(format("llava", &two), list(vec![hi(), image(), image()]));
    assert_eq!(format("lfm2_vl", &two), list(vec![image(), image(), hi()]));
    assert_eq!(
        format("ernie4_5_moe_vl", &two),
        list(vec![ContentItem::ImageUrl, ContentItem::ImageUrl, hi()])
    );
    assert_eq!(
        format("internvl_chat", &two),
        list(vec![
            image(),
            image(),
            ContentItem::ContentText { text: "Hi".to_string() },
            ContentItem::Audio,
        ])
    );
    assert_eq!(
        format("pixtral", &two),
        list(vec![image(), image(), hi(), ContentItem::Audio])
    );
    assert_eq!(format("molmo", &two), FormattedMessage::String("Hi".to_string()));
    assert_eq!(
        format("paligemma", &opts(1, 0)),
        FormattedMessage::String("<image>Hi".to_string())
    );
    assert_eq!(
        format("gemma3", &opts(2, 0)),
        line("Hi<start_of_image><start_of_image>")
    );
    assert_eq!(format("jvlm", &opts(2, 0)), line("<|image|><|image|>Hi"));
    assert_eq!(format("minicpmo", &opts(2, 0)), line("<image><image>Hi"));
    assert_eq!(format("deepseekocr", &opts(2, 0)), line("<image>\n<image>\nHi"));
}

#[test]
fn numbered_tags_count_from_one() {
    assert_eq!(format("phi3_v", &opts(2, 0)), line("<|image_1|><|image_2|>Hi"));
    assert_eq!(format("phi4mm", &opts(1, 2)), line("<|image_1|><|audio_1|><|audio_2|>Hi"));
}

#[test]
fn turns_of_others_carry_the_prompt_alone() {
    let mut assistant = opts(2, 1);
    assistant.role = "assistant".to_string();
    let formatted = format("deepseekocr", &assistant);
    assert_eq!(
        formatted,
        FormattedMessage::Message(Message {
            role: "assistant".to_string(),
            content: MessageContent::Text("Hi".to_string()),
        })
    );
    let mut silent = opts(2, 0);
    silent.skip_image_token = true;
    assert_eq!(format("deepseekocr", &silent), line("Hi"));
}

#[test]
fn upper_and_lower_case_do_not_matter() {
    let formatter = MessageFormatter::for_model("LFM2-VL").unwrap();
    assert_eq!(formatter.model_name, "lfm2-vl");
    assert_eq!(formatter.format_type, MessageFormat::ListWithImageFirst);
}

#[test]
fn unknown_models_are_refused_by_their_name() {
    let err = MessageFormatter::for_model("Nobody").unwrap_err();
    match &err {
        Error::ShapeMismatch { cause: Cause::MissingKey(payload) } => {
            assert_eq!(payload.key, "Nobody");
        }
        other => panic!("got {other:?}"),
    }
    assert!(err.message().contains("Nobody"), "got {}", err.message());
}

#[test]
fn single_image_models_take_one_image() {
    let formatter = MessageFormatter::for_model("mllama").unwrap();
    assert!(formatter.format_message("Hi", &opts(1, 0)).is_ok());
    assert!(formatter.format_message("Hi", &opts(2, 0)).is_err());
}

#[test]
fn videos_are_entries_of_their_own() {
    let mut video = opts(0, 0);
    video.video = vec!["a.mp4".to_string(), "b.mp4".to_string()];
    video.fps = vec![2, 3];
    assert_eq!(
        format("qwen2_vl", &video),
        list(vec![
            MessageBuilder::video_message("a.mp4", 224 * 224, 2),
            MessageBuilder::video_message("b.mp4", 224 * 224, 3),
            hi(),
        ])
    );
    video.fps = vec![];
    assert_eq!(
        format("qwen2_vl", &video),
        list(vec![
            MessageBuilder::video_message("a.mp4", 224 * 224, 1),
            MessageBuilder::video_message("b.mp4", 224 * 224, 1),
            hi(),
        ])
    );
    video.fps = vec![1, 2, 3];
    let formatter = MessageFormatter::for_model("qwen2_vl").unwrap();
    assert!(formatter.format_message("Hi", &video).is_err());
}

#[test]
fn messages_have_a_limit() {
    let over = opts(MAX_MESSAGE_FORMAT_ITEMS + 1, 0);
    let err =
        MessageFormatter::for_model("llava").unwrap().format_message("Hi", &over).unwrap_err();
    assert!(matches!(err, Error::Backend { .. }), "got {err:?}");
    let at = opts(MAX_MESSAGE_FORMAT_ITEMS, 0);
    assert!(MessageFormatter::for_model("llava").unwrap().format_message("Hi", &at).is_ok());
}

#[test]
fn a_message_without_options_announces_nothing() {
    let formatted = get_message_json("llava", "Hi", None).unwrap();
    assert_eq!(formatted, list(vec![hi()]));
    let with = get_message_json("llava", "Hi", Some(&opts(1, 0))).unwrap();
    assert_eq!(with, list(vec![hi(), ContentItem::Image]));
}

#[test]
fn entries_say_what_they_are() {
    assert_eq!(MessageBuilder::text_message("Hi"), hi());
    assert_eq!(
        MessageBuilder::content_message("Hi"),
        ContentItem::ContentText { text: "Hi".to_string() }
    );
    assert_eq!(MessageBuilder::image_message(), ContentItem::Image);
    assert_eq!(MessageBuilder::image_url_message(), ContentItem::ImageUrl);
    assert_eq!(MessageBuilder::audio_message(), ContentItem::Audio);
}

#[test]
fn the_tables_are_in_order() {
    assert!(MODEL_CONFIG.windows(2).all(|w| w[0].0 < w[1].0));
    let names: Vec<&str> = MESSAGE_FORMAT_VARIANTS.iter().map(|f| f.as_str()).collect();
    assert_eq!(names.len(), 15);
    assert_eq!(names[0], "list_with_image");
    assert_eq!(names[14], "video_with_text");
}

#[test]
fn defaults_announce_one_of_each_or_nothing() {
    let formatter = FormatOpts::formatter_default();
    assert_eq!((formatter.num_images, formatter.num_audios), (1, 1));
    let message = FormatOpts::get_message_default();
    assert_eq!((message.num_images, message.num_audios), (0, 0));
    assert_eq!(message.max_pixels, 224 * 224);
}

#[test]
fn plain_turns_are_the_prompt() {
    for name in ["florence2", "Florence2"] {
        let plain = get_message_json(name, "Hi", None).unwrap();
        assert_eq!(plain, FormattedMessage::String("Hi".to_string()));
        let with = get_message_json(name, "Hi", Some(&opts(1, 0))).unwrap();
        assert_eq!(with, FormattedMessage::String("Hi".to_string()));
    }
}

#[test]
fn unknown_types_are_named() {
    match get_message_json("No Such Model", "Hi", None).unwrap_err() {
        Error::ShapeMismatch { cause: Cause::MissingKey(payload) } => {
            assert_eq!(payload.key, "No Such Model");
            assert_eq!(
                payload.context,
                "MessageFormatter::for_model: model_type not in MODEL_CONFIG"
            );
        }
        err => panic!("got {err:?}"),
    }
}
