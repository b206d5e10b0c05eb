//! Chat messages: how a model family wants images, audio and video announced in
//! the content of one chat turn.
//!
//! [`MODEL_CONFIG`] says which [`MessageFormat`] each model type uses, and
//! [`MessageFormatter::format_message`] builds the turn: a list of typed entries,
//! or a string with image and audio tags in it, or the bare prompt.

use vstd::prelude::*;
use vstd::utf8;

use crate::buffer::try_with_capacity;
use crate::error::{
    overflow, shape_length, CapExceededPayload, Cause, Error, KeyPayload, OutOfRangePayload,
};
use crate::text::{self, push_decimal, push_repeated_str, same_text, try_string_with_capacity};

verus! {

/// The largest number of image, audio or video entries that one message may
/// announce.
pub const MAX_MESSAGE_FORMAT_ITEMS: usize = 1024;

/// How a chat message announces its images, audio and video.
#[derive(Debug, Clone, Copy, PartialEq, Eq, Hash, Structural)]
#[non_exhaustive]
pub enum MessageFormat {
    /// A list: the text, then one entry per image.
    ListWithImage,
    /// A list: one entry per image, then the text.
    ListWithImageFirst,
    /// A list: one URL entry per image, then the text.
    ListWithImageUrlFirst,
    /// A list: one entry per image, the text as a content entry, then one entry
    /// per audio.
    ListWithImageType,
    /// A list: one entry per image, the text, then one entry per audio.
    ListWithImageTypeText,
    /// A list: the text, one entry per image, then one entry per audio.
    ListWithImageTypeTextImageLast,
    /// A string with one `<image>` per image in front of the text.
    ImageToken,
    /// A string with one `<|image|>` per image in front of the text.
    ImageTokenPipe,
    /// A string with one `<start_of_image>` per image behind the text.
    StartImageToken,
    /// A string with one `<image>` and a line break per image in front of the
    /// text.
    ImageTokenNewline,
    /// A string with numbered image and audio tags in front of the text.
    NumberedImageTokens,
    /// The bare text.
    PromptOnly,
    /// The bare text with one `<image>` per image in front.
    PromptWithImageToken,
    /// The bare text with one `<start_of_image>` per image behind it.
    PromptWithStartImageToken,
    /// A list: one entry per video, then the text.
    VideoWithText,
}

impl MessageFormat {
    /// The name of the format.
    pub fn as_str(&self) -> (r: &'static str)
        ensures
            r == match *self {
                MessageFormat::ListWithImage => "list_with_image",
                MessageFormat::ListWithImageFirst => "list_with_image_first",
                MessageFormat::ListWithImageUrlFirst => "list_with_image_url_first",
                MessageFormat::ListWithImageType => "list_with_image_type",
                MessageFormat::ListWithImageTypeText => "list_with_image_type_text",
                MessageFormat::ListWithImageTypeTextImageLast => "list_with_image_type_text_image_last",
                MessageFormat::ImageToken => "image_token",
                MessageFormat::ImageTokenPipe => "image_token_pipe",
                MessageFormat::StartImageToken => "start_image_token",
                MessageFormat::ImageTokenNewline => "image_token_newline",
                MessageFormat::NumberedImageTokens => "numbered_image_tokens",
                MessageFormat::PromptOnly => "prompt_only",
                MessageFormat::PromptWithImageToken => "prompt_with_image_token",
                MessageFormat::PromptWithStartImageToken => "prompt_with_start_image_token",
                MessageFormat::VideoWithText => "video_with_text",
            },
    {
        match self {
            MessageFormat::ListWithImage => "list_with_image",
            MessageFormat::ListWithImageFirst => "list_with_image_first",
            MessageFormat::ListWithImageUrlFirst => "list_with_image_url_first",
            MessageFormat::ListWithImageType => "list_with_image_type",
            MessageFormat::ListWithImageTypeText => "list_with_image_type_text",
            MessageFormat::ListWithImageTypeTextImageLast => "list_with_image_type_text_image_last",
            MessageFormat::ImageToken => "image_token",
            MessageFormat::ImageTokenPipe => "image_token_pipe",
            MessageFormat::StartImageToken => "start_image_token",
            MessageFormat::ImageTokenNewline => "image_token_newline",
            MessageFormat::NumberedImageTokens => "numbered_image_tokens",
            MessageFormat::PromptOnly => "prompt_only",
            MessageFormat::PromptWithImageToken => "prompt_with_image_token",
            MessageFormat::PromptWithStartImageToken => "prompt_with_start_image_token",
            MessageFormat::VideoWithText => "video_with_text",
        }
    }
}

/// Every format, in order of declaration.
pub const MESSAGE_FORMAT_VARIANTS: [MessageFormat; 15] = [
    MessageFormat::ListWithImage,
    MessageFormat::ListWithImageFirst,
    MessageFormat::ListWithImageUrlFirst,
    MessageFormat::ListWithImageType,
    MessageFormat::ListWithImageTypeText,
    MessageFormat::ListWithImageTypeTextImageLast,
    MessageFormat::ImageToken,
    MessageFormat::ImageTokenPipe,
    MessageFormat::StartImageToken,
    MessageFormat::ImageTokenNewline,
    MessageFormat::NumberedImageTokens,
    MessageFormat::PromptOnly,
    MessageFormat::PromptWithImageToken,
    MessageFormat::PromptWithStartImageToken,
    MessageFormat::VideoWithText,
];

/// The format of each supported model type, in lexicographic order of the type.
pub const MODEL_CONFIG: [(&'static str, MessageFormat); 58] = [
    ("aya_vision", MessageFormat::ListWithImage),
    ("bunny-llama", MessageFormat::ImageTokenNewline),
    ("cohere2_vision", MessageFormat::ListWithImage),
    ("deepseek_vl_v2", MessageFormat::ImageTokenNewline),
    ("deepseekocr", MessageFormat::ImageTokenNewline),
    ("deepseekocr_2", MessageFormat::ImageTokenNewline),
    ("dots_ocr", MessageFormat::ListWithImageFirst),
    ("ernie4_5_moe_vl", MessageFormat::ListWithImageUrlFirst),
    ("falcon_ocr", MessageFormat::PromptOnly),
    ("florence2", MessageFormat::PromptOnly),
    ("gemma3", MessageFormat::StartImageToken),
    ("gemma3n", MessageFormat::ListWithImageTypeText),
    ("gemma4", MessageFormat::ListWithImageTypeText),
    ("glm4v", MessageFormat::ListWithImageFirst),
    ("glm4v_moe", MessageFormat::ListWithImageFirst),
    ("glm_ocr", MessageFormat::ListWithImageFirst),
    ("granite4_vision", MessageFormat::ListWithImage),
    ("granite_vision", MessageFormat::ListWithImage),
    ("hunyuan_vl", MessageFormat::ListWithImageFirst),
    ("idefics2", MessageFormat::ListWithImage),
    ("idefics3", MessageFormat::ListWithImageFirst),
    ("internvl_chat", MessageFormat::ListWithImageType),
    ("jina_vlm", MessageFormat::ImageTokenPipe),
    ("jvlm", MessageFormat::ImageTokenPipe),
    ("kimi_k25", MessageFormat::ListWithImage),
    ("kimi_vl", MessageFormat::ListWithImage),
    ("lfm2-vl", MessageFormat::ListWithImageFirst),
    ("lfm2_vl", MessageFormat::ListWithImageFirst),
    ("llama4", MessageFormat::ListWithImage),
    ("llava", MessageFormat::ListWithImage),
    ("llava-qwen2", MessageFormat::ImageTokenNewline),
    ("llava_next", MessageFormat::ListWithImage),
    ("llava_qwen2", MessageFormat::ImageTokenNewline),
    ("minicpmo", MessageFormat::ImageToken),
    ("mistral3", MessageFormat::ListWithImageFirst),
    ("mllama", MessageFormat::ListWithImage),
    ("molmo", MessageFormat::PromptOnly),
    ("molmo2", MessageFormat::ListWithImageFirst),
    ("molmo_point", MessageFormat::ListWithImageFirst),
    ("moondream3", MessageFormat::PromptOnly),
    ("multi_modality", MessageFormat::ImageToken),
    ("nemotron_h_nano_omni", MessageFormat::ListWithImageType),
    ("nemotronh_nano_omni_reasoning_v3", MessageFormat::ListWithImageType),
    ("paddleocr_vl", MessageFormat::ListWithImageFirst),
    ("paligemma", MessageFormat::PromptWithImageToken),
    ("phi3_v", MessageFormat::NumberedImageTokens),
    ("phi4-siglip", MessageFormat::ImageTokenNewline),
    ("phi4mm", MessageFormat::NumberedImageTokens),
    ("pixtral", MessageFormat::ListWithImageTypeText),
    ("qwen2_5_vl", MessageFormat::ListWithImageFirst),
    ("qwen2_vl", MessageFormat::ListWithImage),
    ("qwen3_5", MessageFormat::ListWithImageFirst),
    ("qwen3_5_moe", MessageFormat::ListWithImageFirst),
    ("qwen3_omni_moe", MessageFormat::ListWithImageFirst),
    ("qwen3_vl", MessageFormat::ListWithImageFirst),
    ("qwen3_vl_moe", MessageFormat::ListWithImageFirst),
    ("smolvlm", MessageFormat::ListWithImageFirst),
    ("youtu_vl", MessageFormat::ListWithImageFirst),
];

/// The model types that take at most one image per message, in lexicographic
/// order.
pub const SINGLE_IMAGE_ONLY_MODELS: [&'static str; 7] = [
    "bunny-llama",
    "falcon_ocr",
    "llava-qwen2",
    "llava_next",
    "mllama",
    "multi_modality",
    "paligemma",
];

/// The model types that announce videos as entries of their own, in lexicographic
/// order.
pub const VIDEO_FORMAT_MODELS: [&'static str; 8] = [
    "gemma4",
    "qwen2_5_vl",
    "qwen2_vl",
    "qwen3_5",
    "qwen3_5_moe",
    "qwen3_omni_moe",
    "qwen3_vl",
    "qwen3_vl_moe",
];

/// The format of a model type, looked for from entry `i` of the table on.
pub open spec fn config_from(name: Seq<char>, i: int) -> Option<MessageFormat>
    decreases MODEL_CONFIG.len() - i,
{
    if i < 0 || i >= MODEL_CONFIG.len() {
        None
    } else if MODEL_CONFIG[i].0@ == name {
        Some(MODEL_CONFIG[i].1)
    } else {
        config_from(name, i + 1)
    }
}

/// The format of a model type.
pub open spec fn config_of(name: Seq<char>) -> Option<MessageFormat> {
    config_from(name, 0)
}

/// Whether a model type takes at most one image per message.
pub open spec fn is_single_image_only(name: Seq<char>) -> bool {
    exists|i: int|
        0 <= i < SINGLE_IMAGE_ONLY_MODELS.len() && #[trigger] SINGLE_IMAGE_ONLY_MODELS[i]@ == name
}

/// Whether a model type announces videos as entries of their own.
pub open spec fn has_video_format(name: Seq<char>) -> bool {
    exists|i: int|
        0 <= i < VIDEO_FORMAT_MODELS.len() && #[trigger] VIDEO_FORMAT_MODELS[i]@ == name
}

fn find_config(name: &str) -> (r: Option<MessageFormat>)
    ensures
        r == config_of(name@),
{
    let mut i: usize = 0;
    while i < 58
        invariant
            i <= 58,
            config_of(name@) == config_from(name@, i as int),
        decreases 58 - i,
    {
        if same_text(MODEL_CONFIG[i].0, name) {
            return Some(MODEL_CONFIG[i].1);
        }
        i += 1;
    }
    None
}

fn find_single_image_only(name: &str) -> (r: bool)
    ensures
        r == is_single_image_only(name@),
{
    let mut i: usize = 0;
    while i < 7
        invariant
            i <= 7,
            forall|j: int|
                0 <= j < i ==> #[trigger] SINGLE_IMAGE_ONLY_MODELS[j]@ != name@,
        decreases 7 - i,
    {
        if same_text(SINGLE_IMAGE_ONLY_MODELS[i], name) {
            return true;
        }
        i += 1;
    }
    false
}

fn find_video_format(name: &str) -> (r: bool)
    ensures
        r == has_video_format(name@),
{
    let mut i: usize = 0;
    while i < 8
        invariant
            i <= 8,
            forall|j: int| 0 <= j < i ==> #[trigger] VIDEO_FORMAT_MODELS[j]@ != name@,
        decreases 8 - i,
    {
        if same_text(VIDEO_FORMAT_MODELS[i], name) {
            return true;
        }
        i += 1;
    }
    false
}

// ---------------------------------------------------------------------------
// Messages
// ---------------------------------------------------------------------------

/// One entry of a message's content.
#[derive(Debug, PartialEq, Eq)]
#[non_exhaustive]
pub enum ContentItem {
    /// A text entry.
    Text {
        /// The text.
        text: String,
    },
    /// A text entry of the families that tell content from text.
    ContentText {
        /// The text.
        text: String,
    },
    /// The place of an image.
    Image,
    /// The place of an image that is given by its URL.
    ImageUrl,
    /// The place of an audio clip.
    Audio,
    /// A video and how it is sampled.
    Video {
        /// The path or URL of the video.
        video: String,
        /// The pixel limit of a frame.
        max_pixels: u32,
        /// The sampling rate in frames per second.
        fps: u32,
    },
}

/// What an entry says.
#[verifier::ext_equal]
pub enum ItemModel {
    Text(Seq<char>),
    ContentText(Seq<char>),
    Image,
    ImageUrl,
    Audio,
    Video(Seq<char>, u32, u32),
}

impl View for ContentItem {
    type V = ItemModel;

    open spec fn view(&self) -> ItemModel {
        match *self {
            ContentItem::Text { text } => ItemModel::Text(text@),
            ContentItem::ContentText { text } => ItemModel::ContentText(text@),
            ContentItem::Image => ItemModel::Image,
            ContentItem::ImageUrl => ItemModel::ImageUrl,
            ContentItem::Audio => ItemModel::Audio,
            ContentItem::Video { video, max_pixels, fps } => ItemModel::Video(
                video@,
                max_pixels,
                fps,
            ),
        }
    }
}

/// What a list of entries says.
pub open spec fn items_model(items: Seq<ContentItem>) -> Seq<ItemModel> {
    Seq::new(items.len(), |i: int| items[i]@)
}

/// Constructors of the entries.
#[derive(Debug, Clone, Copy)]
pub struct MessageBuilder;

impl MessageBuilder {
    /// A text entry.
    pub fn text_message(text: &str) -> (r: ContentItem)
        ensures
            r@ == ItemModel::Text(text@),
    {
        ContentItem::Text { text: text.to_owned() }
    }

    /// A content entry.
    pub fn content_message(content: &str) -> (r: ContentItem)
        ensures
            r@ == ItemModel::ContentText(content@),
    {
        ContentItem::ContentText { text: content.to_owned() }
    }

    /// An image entry.
    pub fn image_message() -> (r: ContentItem)
        ensures
            r@ == ItemModel::Image,
    {
        ContentItem::Image
    }

    /// An image entry by URL.
    pub fn image_url_message() -> (r: ContentItem)
        ensures
            r@ == ItemModel::ImageUrl,
    {
        ContentItem::ImageUrl
    }

    /// An audio entry.
    pub fn audio_message() -> (r: ContentItem)
        ensures
            r@ == ItemModel::Audio,
    {
        ContentItem::Audio
    }

    /// A video entry.
    pub fn video_message(video_path: &str, max_pixels: u32, fps: u32) -> (r: ContentItem)
        ensures
            r@ == ItemModel::Video(video_path@, max_pixels, fps),
    {
        ContentItem::Video { video: video_path.to_owned(), max_pixels, fps }
    }
}

/// The content of a message.
#[derive(Debug, PartialEq, Eq)]
pub enum MessageContent {
    /// A list of entries.
    Items(Vec<ContentItem>),
    /// A string.
    Text(String),
}

/// What the content of a message says.
#[verifier::ext_equal]
pub enum ContentModel {
    Items(Seq<ItemModel>),
    Text(Seq<char>),
}

impl View for MessageContent {
    type V = ContentModel;

    open spec fn view(&self) -> ContentModel {
        match *self {
            MessageContent::Items(items) => ContentModel::Items(items_model(items@)),
            MessageContent::Text(text) => ContentModel::Text(text@),
        }
    }
}

/// One chat turn.
#[derive(Debug, PartialEq, Eq)]
pub struct Message {
    /// Whose turn it is, such as `user` or `assistant`.
    pub role: String,
    /// What is said.
    pub content: MessageContent,
}

/// A formatted turn: a message, or the bare prompt of the families that take no
/// message.
#[derive(Debug, PartialEq, Eq)]
pub enum FormattedMessage {
    /// A message.
    Message(Message),
    /// A bare prompt.
    String(String),
}

/// What a formatted turn says.
#[verifier::ext_equal]
pub enum FormattedModel {
    Message(Seq<char>, ContentModel),
    String(Seq<char>),
}

impl View for FormattedMessage {
    type V = FormattedModel;

    open spec fn view(&self) -> FormattedModel {
        match *self {
            FormattedMessage::Message(message) => FormattedModel::Message(
                message.role@,
                message.content@,
            ),
            FormattedMessage::String(text) => FormattedModel::String(text@),
        }
    }
}

/// What a turn announces.
#[derive(Debug)]
pub struct FormatOpts {
    /// Whose turn it is.
    pub role: String,
    /// Leave the images out.
    pub skip_image_token: bool,
    /// Leave the audio out.
    pub skip_audio_token: bool,
    /// The number of images.
    pub num_images: usize,
    /// The number of audio clips.
    pub num_audios: usize,
    /// The paths of the videos.
    pub video: Vec<String>,
    /// The pixel limit of a video frame.
    pub max_pixels: u32,
    /// The sampling rates of the videos: none for one frame per second, one for
    /// all videos, or one per video.
    pub fps: Vec<u32>,
}

/// The default pixel limit of a video frame.
pub const DEFAULT_MAX_PIXELS: u32 = 224 * 224;

impl FormatOpts {
    /// A user's turn with one image and one audio clip.
    pub fn formatter_default() -> (r: Self)
        ensures
            r.role@ == "user"@,
            !r.skip_image_token,
            !r.skip_audio_token,
            r.num_images == 1,
            r.num_audios == 1,
            r.video@.len() == 0,
            r.max_pixels == DEFAULT_MAX_PIXELS,
            r.fps@.len() == 0,
    {
        FormatOpts {
            role: "user".to_owned(),
            skip_image_token: false,
            skip_audio_token: false,
            num_images: 1,
            num_audios: 1,
            video: Vec::new(),
            max_pixels: DEFAULT_MAX_PIXELS,
            fps: Vec::new(),
        }
    }

    /// A user's turn with text only.
    pub fn get_message_default() -> (r: Self)
        ensures
            r.role@ == "user"@,
            !r.skip_image_token,
            !r.skip_audio_token,
            r.num_images == 0,
            r.num_audios == 0,
            r.video@.len() == 0,
            r.max_pixels == DEFAULT_MAX_PIXELS,
            r.fps@.len() == 0,
    {
        FormatOpts {
            role: "user".to_owned(),
            skip_image_token: false,
            skip_audio_token: false,
            num_images: 0,
            num_audios: 0,
            video: Vec::new(),
            max_pixels: DEFAULT_MAX_PIXELS,
            fps: Vec::new(),
        }
    }
}

impl Default for FormatOpts {
    /// The same as [`FormatOpts::formatter_default`].
    fn default() -> (r: Self)
        ensures
            r.role@ == "user"@,
            !r.skip_image_token,
            !r.skip_audio_token,
            r.num_images == 1,
            r.num_audios == 1,
            r.video@.len() == 0,
            r.max_pixels == DEFAULT_MAX_PIXELS,
            r.fps@.len() == 0,
    {
        FormatOpts::formatter_default()
    }
}

// ---------------------------------------------------------------------------
// What each format says
// ---------------------------------------------------------------------------

/// A refusal to announce more than [`MAX_MESSAGE_FORMAT_ITEMS`] entries.
#[verifier::allow_in_spec]
pub fn too_many_items(label: &'static str, count: usize) -> Error
    returns
        (Error::Backend {
            cause: Cause::CapExceeded(
                CapExceededPayload {
                    context: label,
                    cap_name: "MAX_MESSAGE_FORMAT_ITEMS",
                    cap: MAX_MESSAGE_FORMAT_ITEMS as u64,
                    observed: count as u64,
                },
            ),
        }),
{
    Error::Backend {
        cause: Cause::CapExceeded(
            CapExceededPayload {
                context: label,
                cap_name: "MAX_MESSAGE_FORMAT_ITEMS",
                cap: MAX_MESSAGE_FORMAT_ITEMS as u64,
                observed: count as u64,
            },
        ),
    }
}

/// A refusal of several images for a model that takes one.
#[verifier::allow_in_spec]
pub fn one_image_only(num_images: usize) -> Error
    returns
        (Error::ShapeMismatch {
            cause: Cause::OutOfRange(
                OutOfRangePayload {
                    context: "MessageFormatter::format_message: opts.num_images (single-image model)",
                    requirement: "must be <= 1",
                    value: num_images as i128,
                },
            ),
        }),
{
    Error::ShapeMismatch {
        cause: Cause::OutOfRange(
            OutOfRangePayload {
                context: "MessageFormatter::format_message: opts.num_images (single-image model)",
                requirement: "must be <= 1",
                value: num_images as i128,
            },
        ),
    }
}

/// A refusal of a video message without videos.
#[verifier::allow_in_spec]
pub fn no_video() -> Error
    returns
        (Error::ShapeMismatch {
            cause: Cause::EmptyInput {
                context: "MessageFormatter::format_video_message: opts.video",
            },
        }),
{
    Error::ShapeMismatch {
        cause: Cause::EmptyInput { context: "MessageFormatter::format_video_message: opts.video" },
    }
}

/// The length of a text in bytes.
pub open spec fn byte_len(text: Seq<char>) -> usize {
    utf8::encode_utf8(text).len() as usize
}

/// The number of images that a turn shows: those of a user's turn, unless they
/// are left out.
pub open spec fn shown_images(opts: FormatOpts) -> usize {
    if opts.role@ == "user"@ && !opts.skip_image_token {
        opts.num_images
    } else {
        0
    }
}

/// The number of audio clips that a turn shows.
pub open spec fn shown_audios(opts: FormatOpts) -> usize {
    if opts.role@ == "user"@ && !opts.skip_audio_token {
        opts.num_audios
    } else {
        0
    }
}

/// `count` copies of an entry.
pub open spec fn copies(item: ItemModel, count: usize) -> Seq<ItemModel> {
    Seq::new(count as nat, |i: int| item)
}

/// The tags `{open}1|>` to `{open}{count}|>`.
pub open spec fn numbered_tags(open: Seq<char>, count: nat) -> Seq<char>
    decreases count,
{
    if count == 0 {
        Seq::empty()
    } else {
        numbered_tags(open, (count - 1) as nat) + open + text::decimal(count) + "|>"@
    }
}

/// A message whose content is a list with one entry per image.
pub open spec fn list_with_image(
    prompt: Seq<char>,
    opts: FormatOpts,
    image_first: bool,
    use_image_url: bool,
) -> Result<FormattedModel, Error> {
    let n = shown_images(opts);
    let images = copies(
        if use_image_url {
            ItemModel::ImageUrl
        } else {
            ItemModel::Image
        },
        n,
    );
    let text = seq![ItemModel::Text(prompt)];
    if n > MAX_MESSAGE_FORMAT_ITEMS {
        Err(too_many_items("num_images", n))
    } else {
        Ok(
            FormattedModel::Message(
                opts.role@,
                ContentModel::Items(
                    if image_first {
                        images + text
                    } else {
                        text + images
                    },
                ),
            ),
        )
    }
}

/// A message whose content is a list with one entry per image and per audio clip;
/// an assistant's turn is a plain string.
pub open spec fn list_with_image_type(
    prompt: Seq<char>,
    opts: FormatOpts,
    as_content: bool,
    image_first: bool,
) -> Result<FormattedModel, Error> {
    let n_img = shown_images(opts);
    let n_aud = shown_audios(opts);
    let images = copies(ItemModel::Image, n_img);
    let audios = copies(ItemModel::Audio, n_aud);
    let text = seq![
        if as_content {
            ItemModel::ContentText(prompt)
        } else {
            ItemModel::Text(prompt)
        },
    ];
    if opts.role@ == "assistant"@ {
        Ok(FormattedModel::Message(opts.role@, ContentModel::Text(prompt)))
    } else if n_img > MAX_MESSAGE_FORMAT_ITEMS {
        Err(too_many_items("num_images", n_img))
    } else if n_aud > MAX_MESSAGE_FORMAT_ITEMS {
        Err(too_many_items("num_audios", n_aud))
    } else {
        Ok(
            FormattedModel::Message(
                opts.role@,
                ContentModel::Items(
                    if image_first {
                        images + text + audios
                    } else {
                        text + images + audios
                    },
                ),
            ),
        )
    }
}

/// A message whose content is a string: numbered audio tags, then one `token` per
/// image in front of the prompt or behind it.
pub open spec fn with_token(
    prompt: Seq<char>,
    opts: FormatOpts,
    token: Seq<char>,
    image_first: bool,
) -> Result<FormattedModel, Error> {
    let n_img = shown_images(opts);
    let n_aud = shown_audios(opts);
    let token_bytes = byte_len(token) * n_img;
    let audio_bytes = 32 * n_aud;
    let tags = text::repeated(token, n_img as nat);
    if n_img > MAX_MESSAGE_FORMAT_ITEMS {
        Err(too_many_items("num_images", n_img))
    } else if n_aud > MAX_MESSAGE_FORMAT_ITEMS {
        Err(too_many_items("num_audios", n_aud))
    } else if token_bytes > usize::MAX {
        Err(
            overflow(
                "MessageFormatter::format_with_token: token_bytes (token.len() * num_images)",
                "usize",
                byte_len(token) as i128,
                n_img as i128,
            ),
        )
    } else if token_bytes + audio_bytes + byte_len(prompt) > usize::MAX {
        Err(
            overflow(
                "MessageFormatter::format_with_token: cap (token_bytes + audio_bytes + prompt.len())",
                "usize",
                token_bytes as i128,
                byte_len(prompt) as i128,
            ),
        )
    } else {
        Ok(
            FormattedModel::Message(
                opts.role@,
                ContentModel::Text(
                    numbered_tags("<|audio_"@, n_aud as nat) + (if image_first {
                        tags + prompt
                    } else {
                        prompt + tags
                    }),
                ),
            ),
        )
    }
}

/// A message whose content is a string: numbered image tags, numbered audio tags,
/// then the prompt.
pub open spec fn with_numbered_tokens(prompt: Seq<char>, opts: FormatOpts) -> Result<
    FormattedModel,
    Error,
> {
    let n_img = shown_images(opts);
    let n_aud = shown_audios(opts);
    if n_img > MAX_MESSAGE_FORMAT_ITEMS {
        Err(too_many_items("num_images", n_img))
    } else if n_aud > MAX_MESSAGE_FORMAT_ITEMS {
        Err(too_many_items("num_audios", n_aud))
    } else if 16 * n_img + 16 * n_aud + byte_len(prompt) > usize::MAX {
        Err(
            overflow(
                "MessageFormatter::format_numbered_tokens: cap (img_bytes + aud_bytes + prompt.len())",
                "usize",
                (16 * n_img + 16 * n_aud) as i128,
                byte_len(prompt) as i128,
            ),
        )
    } else {
        Ok(
            FormattedModel::Message(
                opts.role@,
                ContentModel::Text(
                    numbered_tags("<|image_"@, n_img as nat) + numbered_tags(
                        "<|audio_"@,
                        n_aud as nat,
                    ) + prompt,
                ),
            ),
        )
    }
}

/// The bare prompt with one `token` of `token_len` bytes per image in front of it
/// or behind it, whoever's turn it is.
pub open spec fn bare_with_token(
    prompt: Seq<char>,
    opts: FormatOpts,
    token: Seq<char>,
    token_len: usize,
    image_first: bool,
    context: &'static str,
) -> Result<FormattedModel, Error> {
    let n = opts.num_images;
    let tags = text::repeated(token, n as nat);
    if n > MAX_MESSAGE_FORMAT_ITEMS {
        Err(too_many_items("num_images", n))
    } else if n * token_len + byte_len(prompt) > usize::MAX {
        Err(overflow(context, "usize", n as i128, byte_len(prompt) as i128))
    } else {
        Ok(
            FormattedModel::String(
                if image_first {
                    tags + prompt
                } else {
                    prompt + tags
                },
            ),
        )
    }
}

/// The sampling rate of video `i`: one frame per second by default, the one rate
/// given for all, or its own.
pub open spec fn fps_of(fps: Seq<u32>, i: int) -> u32 {
    if fps.len() == 0 {
        1
    } else if fps.len() == 1 {
        fps[0]
    } else {
        fps[i]
    }
}

/// A message whose content is a list: one entry per video, then the text.
pub open spec fn with_videos(prompt: Seq<char>, opts: FormatOpts) -> Result<
    FormattedModel,
    Error,
> {
    let n = opts.video@.len() as usize;
    if n == 0 {
        Err(no_video())
    } else if n > MAX_MESSAGE_FORMAT_ITEMS {
        Err(too_many_items("video.len()", n))
    } else if opts.fps@.len() > 1 && opts.fps@.len() != n {
        Err(
            shape_length(
                "MessageFormatter::format_video_message: opts.fps vs opts.video length",
                n,
                opts.fps@.len() as usize,
            ),
        )
    } else {
        Ok(
            FormattedModel::Message(
                opts.role@,
                ContentModel::Items(
                    Seq::new(
                        n as nat,
                        |i: int|
                            ItemModel::Video(
                                opts.video@[i]@,
                                opts.max_pixels,
                                fps_of(opts.fps@, i),
                            ),
                    ) + seq![ItemModel::Text(prompt)],
                ),
            ),
        )
    }
}

/// What a model family makes of a turn.
///
/// A single-image model refuses several images. A model with a video format turns
/// to it as soon as there is a video; otherwise its own format decides.
pub open spec fn formatted(
    model_name: Seq<char>,
    format_type: MessageFormat,
    prompt: Seq<char>,
    opts: FormatOpts,
) -> Result<FormattedModel, Error> {
    if opts.num_images > 1 && is_single_image_only(model_name) {
        Err(one_image_only(opts.num_images))
    } else if opts.video@.len() > 0 && has_video_format(model_name) {
        with_videos(prompt, opts)
    } else {
        match format_type {
            MessageFormat::ListWithImage => list_with_image(prompt, opts, false, false),
            MessageFormat::ListWithImageFirst => list_with_image(prompt, opts, true, false),
            MessageFormat::ListWithImageUrlFirst => list_with_image(prompt, opts, true, true),
            MessageFormat::ListWithImageType => list_with_image_type(prompt, opts, true, true),
            MessageFormat::ListWithImageTypeText => list_with_image_type(
                prompt,
                opts,
                false,
                true,
            ),
            MessageFormat::ListWithImageTypeTextImageLast => list_with_image_type(
                prompt,
                opts,
                false,
                false,
            ),
            MessageFormat::ImageToken => with_token(prompt, opts, "<image>"@, true),
            MessageFormat::ImageTokenPipe => with_token(prompt, opts, "<|image|>"@, true),
            MessageFormat::StartImageToken => with_token(
                prompt,
                opts,
                "<start_of_image>"@,
                false,
            ),
            MessageFormat::ImageTokenNewline => with_token(prompt, opts, "<image>\n"@, true),
            MessageFormat::NumberedImageTokens => with_numbered_tokens(prompt, opts),
            MessageFormat::PromptOnly => Ok(FormattedModel::String(prompt)),
            MessageFormat::PromptWithImageToken => bare_with_token(
                prompt,
                opts,
                "<image>"@,
                7,
                true,
                "MessageFormatter::format_prompt_with_image_token: cap (7 * num_images + prompt.len())",
            ),
            MessageFormat::PromptWithStartImageToken => bare_with_token(
                prompt,
                opts,
                "<start_of_image>"@,
                16,
                false,
                "MessageFormatter::format_prompt_with_start_image_token: cap (16 * num_images + prompt.len())",
            ),
            MessageFormat::VideoWithText => with_videos(prompt, opts),
        }
    }
}

/// Whether a result is the stated one, or `Error::OutOfMemory` in place of a
/// stated success.
pub open spec fn is_or_out_of_memory(
    r: Result<FormattedMessage, Error>,
    stated: Result<FormattedModel, Error>,
) -> bool {
    match stated {
        Ok(model) => match r {
            Ok(message) => message@ == model,
            Err(e) => e == Error::OutOfMemory,
        },
        Err(e) => r == Err::<FormattedMessage, Error>(e),
    }
}

// ---------------------------------------------------------------------------
// The formatter
// ---------------------------------------------------------------------------

/// Room for the entries and the bytes of a message.
#[derive(Clone, Copy)]
struct Room {
    items: usize,
    bytes: usize,
}

fn is_user(opts: &FormatOpts) -> (r: bool)
    ensures
        r == (opts.role@ == "user"@),
{
    same_text(opts.role.as_str(), "user")
}

fn count_images(opts: &FormatOpts) -> (r: usize)
    ensures
        r == shown_images(*opts),
{
    if is_user(opts) && !opts.skip_image_token {
        opts.num_images
    } else {
        0
    }
}

fn count_audios(opts: &FormatOpts) -> (r: usize)
    ensures
        r == shown_audios(*opts),
{
    if is_user(opts) && !opts.skip_audio_token {
        opts.num_audios
    } else {
        0
    }
}

/// Refuses a count over [`MAX_MESSAGE_FORMAT_ITEMS`].
fn check_format_count(count: usize, label: &'static str) -> (r: Result<(), Error>)
    ensures
        r == (if count > MAX_MESSAGE_FORMAT_ITEMS {
            Err(too_many_items(label, count))
        } else {
            Ok(())
        }),
{
    if count > MAX_MESSAGE_FORMAT_ITEMS {
        Err(too_many_items(label, count))
    } else {
        Ok(())
    }
}

/// Refuses too many images or audio clips.
fn check_counts(opts: &FormatOpts) -> (r: Result<(), Error>)
    ensures
        r == (if shown_images(*opts) > MAX_MESSAGE_FORMAT_ITEMS {
            Err(too_many_items("num_images", shown_images(*opts)))
        } else if shown_audios(*opts) > MAX_MESSAGE_FORMAT_ITEMS {
            Err(too_many_items("num_audios", shown_audios(*opts)))
        } else {
            Ok(())
        }),
{
    match check_format_count(count_images(opts), "num_images") {
        Ok(_) => check_format_count(count_audios(opts), "num_audios"),
        Err(e) => Err(e),
    }
}

fn plan_list_with_image(opts: &FormatOpts) -> (r: Result<Room, Error>)
    ensures
        forall|prompt: Seq<char>, first: bool, url: bool|
            match #[trigger] list_with_image(prompt, *opts, first, url) {
                Ok(_) => r is Ok,
                Err(e) => r == Err::<Room, Error>(e),
            },
{
    match check_format_count(count_images(opts), "num_images") {
        Ok(_) => Ok(Room { items: 1 + count_images(opts), bytes: 0 }),
        Err(e) => Err(e),
    }
}

fn plan_list_with_image_type(opts: &FormatOpts) -> (r: Result<Room, Error>)
    ensures
        forall|prompt: Seq<char>, content: bool, first: bool|
            match #[trigger] list_with_image_type(prompt, *opts, content, first) {
                Ok(_) => r is Ok,
                Err(e) => r == Err::<Room, Error>(e),
            },
        opts.role@ == "assistant"@ ==> r == Ok::<Room, Error>(Room { items: 0, bytes: 0 }),
{
    if same_text(opts.role.as_str(), "assistant") {
        return Ok(Room { items: 0, bytes: 0 });
    }
    match check_counts(opts) {
        Ok(_) => Ok(Room { items: 1 + count_images(opts) + count_audios(opts), bytes: 0 }),
        Err(e) => Err(e),
    }
}

fn plan_with_token(prompt: &str, opts: &FormatOpts, token: &str) -> (r: Result<Room, Error>)
    ensures
        forall|first: bool|
            match #[trigger] with_token(prompt@, *opts, token@, first) {
                Ok(_) => r is Ok,
                Err(e) => r == Err::<Room, Error>(e),
            },
{
    check_counts(opts)?;
    let n_img: usize = count_images(opts);
    let n_aud: usize = count_audios(opts);
    let token_bytes: usize = match token.len().checked_mul(n_img) {
        Some(n) => n,
        None => {
            return Err(
                overflow(
                    "MessageFormatter::format_with_token: token_bytes (token.len() * num_images)",
                    "usize",
                    token.len() as i128,
                    n_img as i128,
                ),
            );
        },
    };
    let audio_bytes: usize = 32 * n_aud;
    if let Some(tags) = token_bytes.checked_add(audio_bytes) {
        if let Some(bytes) = tags.checked_add(prompt.len()) {
            return Ok(Room { items: 0, bytes });
        }
    }
    Err(
        overflow(
            "MessageFormatter::format_with_token: cap (token_bytes + audio_bytes + prompt.len())",
            "usize",
            token_bytes as i128,
            prompt.len() as i128,
        ),
    )
}

fn plan_numbered_tokens(prompt: &str, opts: &FormatOpts) -> (r: Result<Room, Error>)
    ensures
        match with_numbered_tokens(prompt@, *opts) {
            Ok(_) => r is Ok,
            Err(e) => r == Err::<Room, Error>(e),
        },
{
    check_counts(opts)?;
    let tags: usize = 16 * count_images(opts) + 16 * count_audios(opts);
    match tags.checked_add(prompt.len()) {
        Some(bytes) => Ok(Room { items: 0, bytes }),
        None => Err(
            overflow(
                "MessageFormatter::format_numbered_tokens: cap (img_bytes + aud_bytes + prompt.len())",
                "usize",
                tags as i128,
                prompt.len() as i128,
            ),
        ),
    }
}

fn plan_bare_with_token(
    prompt: &str,
    opts: &FormatOpts,
    token_len: usize,
    context: &'static str,
) -> (r: Result<Room, Error>)
    requires
        token_len <= 16,
    ensures
        forall|token: Seq<char>, first: bool|
            match #[trigger] bare_with_token(prompt@, *opts, token, token_len, first, context) {
                Ok(_) => r is Ok,
                Err(e) => r == Err::<Room, Error>(e),
            },
{
    check_format_count(opts.num_images, "num_images")?;
    proof {
        assert(opts.num_images * token_len <= 1024 * 16) by (nonlinear_arith)
            requires
                opts.num_images <= 1024,
                token_len <= 16,
        ;
    }
    match (opts.num_images * token_len).checked_add(prompt.len()) {
        Some(bytes) => Ok(Room { items: 0, bytes }),
        None => Err(overflow(context, "usize", opts.num_images as i128, prompt.len() as i128)),
    }
}

fn plan_videos(opts: &FormatOpts) -> (r: Result<Room, Error>)
    ensures
        forall|prompt: Seq<char>|
            match #[trigger] with_videos(prompt, *opts) {
                Ok(_) => r is Ok,
                Err(e) => r == Err::<Room, Error>(e),
            },
{
    if opts.video.len() == 0 {
        return Err(no_video());
    }
    check_format_count(opts.video.len(), "video.len()")?;
    if opts.fps.len() > 1 && opts.fps.len() != opts.video.len() {
        return Err(
            shape_length(
                "MessageFormatter::format_video_message: opts.fps vs opts.video length",
                opts.video.len(),
                opts.fps.len(),
            ),
        );
    }
    Ok(Room { items: opts.video.len() + 1, bytes: 0 })
}

/// Appends `count` entries of one kind.
fn push_images(items: &mut Vec<ContentItem>, count: usize, use_image_url: bool)
    ensures
        items_model(final(items)@) == items_model(old(items)@) + copies(
            if use_image_url {
                ItemModel::ImageUrl
            } else {
                ItemModel::Image
            },
            count,
        ),
{
    let ghost before = items_model(items@);
    let mut i: usize = 0;
    assert(items_model(items@) =~= before + copies(ItemModel::Image, 0));
    assert(items_model(items@) =~= before + copies(ItemModel::ImageUrl, 0));
    while i < count
        invariant
            i <= count,
            items_model(items@) == before + copies(
                if use_image_url {
                    ItemModel::ImageUrl
                } else {
                    ItemModel::Image
                },
                i,
            ),
        decreases count - i,
    {
        let ghost step = items_model(items@);
        if use_image_url {
            items.push(MessageBuilder::image_url_message());
        } else {
            items.push(MessageBuilder::image_message());
        }
        i += 1;
        proof {
            let item = if use_image_url {
                ItemModel::ImageUrl
            } else {
                ItemModel::Image
            };
            assert(items_model(items@) =~= step.push(item));
            assert(items_model(items@) =~= before + copies(item, i));
        }
    }
}

fn push_audios(items: &mut Vec<ContentItem>, count: usize)
    ensures
        items_model(final(items)@) == items_model(old(items)@) + copies(ItemModel::Audio, count),
{
    let ghost before = items_model(items@);
    let mut i: usize = 0;
    assert(items_model(items@) =~= before + copies(ItemModel::Audio, 0));
    while i < count
        invariant
            i <= count,
            items_model(items@) == before + copies(ItemModel::Audio, i),
        decreases count - i,
    {
        let ghost step = items_model(items@);
        items.push(MessageBuilder::audio_message());
        i += 1;
        proof {
            assert(items_model(items@) =~= step.push(ItemModel::Audio));
            assert(items_model(items@) =~= before + copies(ItemModel::Audio, i));
        }
    }
}

/// Appends one entry.
fn push_item(items: &mut Vec<ContentItem>, item: ContentItem)
    ensures
        items_model(final(items)@) == items_model(old(items)@) + seq![item@],
{
    let ghost before = items@;
    items.push(item);
    assert(items_model(items@) =~= items_model(before) + seq![item@]);
}

/// Appends the tags `{open}1|>` to `{open}{count}|>`.
fn push_numbered_tags(s: &mut String, open: &str, count: usize)
    ensures
        final(s)@ == old(s)@ + numbered_tags(open@, count as nat),
{
    let ghost before = s@;
    let mut i: usize = 0;
    assert(s@ =~= before + numbered_tags(open@, 0));
    while i < count
        invariant
            i <= count,
            s@ == before + numbered_tags(open@, i as nat),
        decreases count - i,
    {
        s.append(open);
        push_decimal(s, i + 1);
        s.append("|>");
        i += 1;
        assert(s@ =~= before + numbered_tags(open@, i as nat));
    }
}

fn fill_list_with_image(
    prompt: &str,
    opts: &FormatOpts,
    image_first: bool,
    use_image_url: bool,
    items: Vec<ContentItem>,
) -> (r: FormattedMessage)
    requires
        items@.len() == 0,
        list_with_image(prompt@, *opts, image_first, use_image_url) is Ok,
    ensures
        r@ == list_with_image(prompt@, *opts, image_first, use_image_url)->Ok_0,
{
    let n: usize = count_images(opts);
    let mut content: Vec<ContentItem> = items;
    assert(items_model(content@) =~= Seq::<ItemModel>::empty());
    if image_first {
        push_images(&mut content, n, use_image_url);
        push_item(&mut content, MessageBuilder::text_message(prompt));
    } else {
        push_item(&mut content, MessageBuilder::text_message(prompt));
        push_images(&mut content, n, use_image_url);
    }
    let r = FormattedMessage::Message(
        Message { role: opts.role.clone(), content: MessageContent::Items(content) },
    );
    assert(r@ =~= list_with_image(prompt@, *opts, image_first, use_image_url)->Ok_0);
    r
}

fn fill_list_with_image_type(
    prompt: &str,
    opts: &FormatOpts,
    as_content: bool,
    image_first: bool,
    items: Vec<ContentItem>,
) -> (r: FormattedMessage)
    requires
        items@.len() == 0,
        list_with_image_type(prompt@, *opts, as_content, image_first) is Ok,
    ensures
        r@ == list_with_image_type(prompt@, *opts, as_content, image_first)->Ok_0,
{
    if same_text(opts.role.as_str(), "assistant") {
        return FormattedMessage::Message(
            Message { role: opts.role.clone(), content: MessageContent::Text(prompt.to_owned()) },
        );
    }
    let text: ContentItem = if as_content {
        MessageBuilder::content_message(prompt)
    } else {
        MessageBuilder::text_message(prompt)
    };
    let mut content: Vec<ContentItem> = items;
    assert(items_model(content@) =~= Seq::<ItemModel>::empty());
    if image_first {
        push_images(&mut content, count_images(opts), false);
        push_item(&mut content, text);
    } else {
        push_item(&mut content, text);
        push_images(&mut content, count_images(opts), false);
    }
    push_audios(&mut content, count_audios(opts));
    let r = FormattedMessage::Message(
        Message { role: opts.role.clone(), content: MessageContent::Items(content) },
    );
    assert(r@ =~= list_with_image_type(prompt@, *opts, as_content, image_first)->Ok_0);
    r
}

fn fill_with_token(
    prompt: &str,
    opts: &FormatOpts,
    token: &str,
    image_first: bool,
    text: String,
) -> (r: FormattedMessage)
    requires
        text@.len() == 0,
        with_token(prompt@, *opts, token@, image_first) is Ok,
    ensures
        r@ == with_token(prompt@, *opts, token@, image_first)->Ok_0,
{
    let mut content: String = text;
    push_numbered_tags(&mut content, "<|audio_", count_audios(opts));
    if image_first {
        push_repeated_str(&mut content, token, count_images(opts));
        content.append(prompt);
    } else {
        content.append(prompt);
        push_repeated_str(&mut content, token, count_images(opts));
    }
    let r = FormattedMessage::Message(
        Message { role: opts.role.clone(), content: MessageContent::Text(content) },
    );
    assert(r@ =~= with_token(prompt@, *opts, token@, image_first)->Ok_0);
    r
}

fn fill_numbered_tokens(prompt: &str, opts: &FormatOpts, text: String) -> (r: FormattedMessage)
    requires
        text@.len() == 0,
        with_numbered_tokens(prompt@, *opts) is Ok,
    ensures
        r@ == with_numbered_tokens(prompt@, *opts)->Ok_0,
{
    let mut content: String = text;
    push_numbered_tags(&mut content, "<|image_", count_images(opts));
    push_numbered_tags(&mut content, "<|audio_", count_audios(opts));
    content.append(prompt);
    let r = FormattedMessage::Message(
        Message { role: opts.role.clone(), content: MessageContent::Text(content) },
    );
    assert(r@ =~= with_numbered_tokens(prompt@, *opts)->Ok_0);
    r
}

fn fill_bare_with_token(
    prompt: &str,
    opts: &FormatOpts,
    token: &str,
    image_first: bool,
    text: String,
) -> (r: FormattedMessage)
    requires
        text@.len() == 0,
    ensures
        forall|token_len: usize, context: &'static str|
            match #[trigger] bare_with_token(
                prompt@,
                *opts,
                token@,
                token_len,
                image_first,
                context,
            ) {
                Ok(model) => r@ == model,
                Err(_) => true,
            },
{
    let mut content: String = text;
    if image_first {
        push_repeated_str(&mut content, token, opts.num_images);
        content.append(prompt);
    } else {
        content.append(prompt);
        push_repeated_str(&mut content, token, opts.num_images);
    }
    let ghost tags = text::repeated(token@, opts.num_images as nat);
    assert(content@ =~= if image_first {
        tags + prompt@
    } else {
        prompt@ + tags
    });
    FormattedMessage::String(content)
}

fn fill_videos(prompt: &str, opts: &FormatOpts, items: Vec<ContentItem>) -> (r: FormattedMessage)
    requires
        items@.len() == 0,
        with_videos(prompt@, *opts) is Ok,
    ensures
        r@ == with_videos(prompt@, *opts)->Ok_0,
{
    let mut content: Vec<ContentItem> = items;
    let n: usize = opts.video.len();
    let mut i: usize = 0;
    let ghost videos = |k: int|
        ItemModel::Video(opts.video@[k]@, opts.max_pixels, fps_of(opts.fps@, k));
    assert(items_model(content@) =~= Seq::new(0, videos));
    while i < n
        invariant
            i <= n == opts.video@.len(),
            opts.fps@.len() > 1 ==> opts.fps@.len() == opts.video@.len(),
            videos == (|k: int|
                ItemModel::Video(opts.video@[k]@, opts.max_pixels, fps_of(opts.fps@, k))),
            items_model(content@) == Seq::new(i as nat, videos),
        decreases n - i,
    {
        let fps: u32 = if opts.fps.len() == 0 {
            1
        } else if opts.fps.len() == 1 {
            opts.fps[0]
        } else {
            opts.fps[i]
        };
        push_item(
            &mut content,
            MessageBuilder::video_message(opts.video[i].as_str(), opts.max_pixels, fps),
        );
        i += 1;
        assert(items_model(content@) =~= Seq::new(i as nat, videos));
    }
    push_item(&mut content, MessageBuilder::text_message(prompt));
    let r = FormattedMessage::Message(
        Message { role: opts.role.clone(), content: MessageContent::Items(content) },
    );
    assert(r@ =~= with_videos(prompt@, *opts)->Ok_0);
    r
}

/// Formats the turns of one model family.
#[derive(Debug)]
pub struct MessageFormatter {
    /// The model type, in lower case.
    pub model_name: String,
    /// The format of the model type.
    pub format_type: MessageFormat,
}

/// A text in lower case, as `str::to_lowercase` gives it.
pub uninterp spec fn lowercase(text: Seq<char>) -> Seq<char>;

/// An ASCII letter in lower case; any other character as it is.
pub open spec fn ascii_lowercase(c: char) -> char {
    if 'A' <= c <= 'Z' {
        (c as u32 + 32) as char
    } else {
        c
    }
}

/// Calls `str::to_lowercase`, which gives the lower-case equivalent of a text. Of
/// a text in ASCII that is the text with each of the letters `A` to `Z` replaced
/// by its small letter.
#[verifier::external_body]
fn to_lowercase(text: &str) -> (r: String)
    ensures
        r@ == lowercase(text@),
        text.is_ascii() ==> r@ == text@.map_values(|c: char| ascii_lowercase(c)),
{
    text.to_lowercase()
}

/// What looking up a model type gives, where `lower` is its lower-case name.
pub open spec fn is_formatter_for(
    r: Result<MessageFormatter, Error>,
    model_type: Seq<char>,
    lower: Seq<char>,
) -> bool {
    match config_of(lower) {
        Some(format) => r matches Ok(formatter) && formatter.model_name@ == lower
            && formatter.format_type == format,
        None => r matches Err(Error::ShapeMismatch { cause: Cause::MissingKey(payload) })
            && payload.context == "MessageFormatter::for_model: model_type not in MODEL_CONFIG"
            && payload.key@ == model_type,
    }
}

/// Whether a turn is the prompt as it is, without anything announced.
pub open spec fn is_plain(model_name: Seq<char>, format: MessageFormat, opts: FormatOpts) -> bool {
    &&& !(opts.video@.len() > 0 && has_video_format(model_name))
    &&& match format {
        MessageFormat::PromptOnly => true,
        MessageFormat::ListWithImageType
        | MessageFormat::ListWithImageTypeText
        | MessageFormat::ListWithImageTypeTextImageLast => opts.role@ == "assistant"@,
        _ => false,
    }
}

/// What formatting a turn may return: what [`formatted`] says, or that the
/// allocator declined, which it does not where the turn is plain.
pub open spec fn is_turn(
    r: Result<FormattedMessage, Error>,
    model_name: Seq<char>,
    format: MessageFormat,
    prompt: Seq<char>,
    opts: FormatOpts,
) -> bool {
    let outcome = formatted(model_name, format, prompt, opts);
    &&& is_or_out_of_memory(r, outcome)
    &&& is_plain(model_name, format, opts) && outcome is Ok ==> r is Ok
}

impl MessageFormatter {
    /// The formatter of a model type; upper and lower case do not matter. A type
    /// that [`MODEL_CONFIG`] does not list is refused.
    pub fn for_model(model_type: &str) -> (r: Result<Self, Error>)
        ensures
            is_formatter_for(r, model_type@, lowercase(model_type@)),
            model_type.is_ascii() ==> is_formatter_for(
                r,
                model_type@,
                model_type@.map_values(|c: char| ascii_lowercase(c)),
            ),
    {
        MessageFormatter::for_lowered(model_type, to_lowercase(model_type))
    }

    /// The formatter of a model type whose lower-case name is given.
    pub fn for_lowered(model_type: &str, lower: String) -> (r: Result<Self, Error>)
        ensures
            is_formatter_for(r, model_type@, lower@),
    {
        match find_config(lower.as_str()) {
            Some(format_type) => Ok(MessageFormatter { model_name: lower, format_type }),
            None => Err(
                Error::ShapeMismatch {
                    cause: Cause::MissingKey(
                        KeyPayload {
                            context: "MessageFormatter::for_model: model_type not in MODEL_CONFIG",
                            key: model_type.to_owned(),
                        },
                    ),
                },
            ),
        }
    }

    /// Checks a turn and says how much room it needs.
    fn plan_message(&self, prompt: &str, opts: &FormatOpts) -> (r: Result<Room, Error>)
        ensures
            match formatted(self.model_name@, self.format_type, prompt@, *opts) {
                Ok(_) => r is Ok,
                Err(e) => r == Err::<Room, Error>(e),
            },
            is_plain(self.model_name@, self.format_type, *opts) && r is Ok ==> r->Ok_0 == (
            Room { items: 0, bytes: 0 }),
    {
        if opts.num_images > 1 && find_single_image_only(self.model_name.as_str()) {
            return Err(one_image_only(opts.num_images));
        }
        if opts.video.len() > 0 && find_video_format(self.model_name.as_str()) {
            return plan_videos(opts);
        }
        match self.format_type {
            MessageFormat::ListWithImage | MessageFormat::ListWithImageFirst
            | MessageFormat::ListWithImageUrlFirst => plan_list_with_image(opts),
            MessageFormat::ListWithImageType | MessageFormat::ListWithImageTypeText
            | MessageFormat::ListWithImageTypeTextImageLast => plan_list_with_image_type(opts),
            MessageFormat::ImageToken => plan_with_token(prompt, opts, "<image>"),
            MessageFormat::ImageTokenPipe => plan_with_token(prompt, opts, "<|image|>"),
            MessageFormat::StartImageToken => plan_with_token(prompt, opts, "<start_of_image>"),
            MessageFormat::ImageTokenNewline => plan_with_token(prompt, opts, "<image>\n"),
            MessageFormat::NumberedImageTokens => plan_numbered_tokens(prompt, opts),
            MessageFormat::PromptOnly => Ok(Room { items: 0, bytes: 0 }),
            MessageFormat::PromptWithImageToken => plan_bare_with_token(
                prompt,
                opts,
                7,
                "MessageFormatter::format_prompt_with_image_token: cap (7 * num_images + prompt.len())",
            ),
            MessageFormat::PromptWithStartImageToken => plan_bare_with_token(
                prompt,
                opts,
                16,
                "MessageFormatter::format_prompt_with_start_image_token: cap (16 * num_images + prompt.len())",
            ),
            MessageFormat::VideoWithText => plan_videos(opts),
        }
    }

    /// Formats an accepted turn in the two given buffers: the entries in `items`,
    /// the characters in `text`.
    pub fn fill_message(
        &self,
        prompt: &str,
        opts: &FormatOpts,
        items: Vec<ContentItem>,
        text: String,
    ) -> (r: FormattedMessage)
        requires
            items@.len() == 0,
            text@.len() == 0,
            formatted(self.model_name@, self.format_type, prompt@, *opts) is Ok,
        ensures
            r@ == formatted(self.model_name@, self.format_type, prompt@, *opts)->Ok_0,
    {
        if opts.video.len() > 0 && find_video_format(self.model_name.as_str()) {
            return fill_videos(prompt, opts, items);
        }
        match self.format_type {
            MessageFormat::ListWithImage => fill_list_with_image(
                prompt,
                opts,
                false,
                false,
                items,
            ),
            MessageFormat::ListWithImageFirst => fill_list_with_image(
                prompt,
                opts,
                true,
                false,
                items,
            ),
            MessageFormat::ListWithImageUrlFirst => fill_list_with_image(
                prompt,
                opts,
                true,
                true,
                items,
            ),
            MessageFormat::ListWithImageType => fill_list_with_image_type(
                prompt,
                opts,
                true,
                true,
                items,
            ),
            MessageFormat::ListWithImageTypeText => fill_list_with_image_type(
                prompt,
                opts,
                false,
                true,
                items,
            ),
            MessageFormat::ListWithImageTypeTextImageLast => fill_list_with_image_type(
                prompt,
                opts,
                false,
                false,
                items,
            ),
            MessageFormat::ImageToken => fill_with_token(prompt, opts, "<image>", true, text),
            MessageFormat::ImageTokenPipe => fill_with_token(
                prompt,
                opts,
                "<|image|>",
                true,
                text,
            ),
            MessageFormat::StartImageToken => fill_with_token(
                prompt,
                opts,
                "<start_of_image>",
                false,
                text,
            ),
            MessageFormat::ImageTokenNewline => fill_with_token(
                prompt,
                opts,
                "<image>\n",
                true,
                text,
            ),
            MessageFormat::NumberedImageTokens => fill_numbered_tokens(prompt, opts, text),
            MessageFormat::PromptOnly => FormattedMessage::String(prompt.to_owned()),
            MessageFormat::PromptWithImageToken => fill_bare_with_token(
                prompt,
                opts,
                "<image>",
                true,
                text,
            ),
            MessageFormat::PromptWithStartImageToken => fill_bare_with_token(
                prompt,
                opts,
                "<start_of_image>",
                false,
                text,
            ),
            MessageFormat::VideoWithText => fill_videos(prompt, opts, items),
        }
    }

    /// Formats one turn.
    ///
    /// Only a user's turn announces images and audio, except in the two formats
    /// that put the image tokens next to the bare prompt, whoever's turn it is. At
    /// most [`MAX_MESSAGE_FORMAT_ITEMS`] images, audio clips or videos are
    /// announced; more are refused with `Error::Backend`. The allocator may decline
    /// the room that the entries or tags need, with `Error::OutOfMemory`; a turn
    /// that announces nothing needs none.
    pub fn format_message(&self, prompt: &str, opts: &FormatOpts) -> (r: Result<
        FormattedMessage,
        Error,
    >)
        ensures
            is_turn(r, self.model_name@, self.format_type, prompt@, *opts),
    {
        let room: Room = self.plan_message(prompt, opts)?;
        let items: Vec<ContentItem> = if room.items == 0 {
            Vec::new()
        } else {
            match try_with_capacity(room.items) {
                Ok(items) => items,
                Err(e) => {
                    return Err(e);
                },
            }
        };
        let text: String = if room.bytes == 0 {
            String::new()
        } else {
            match try_string_with_capacity(room.bytes) {
                Ok(text) => text,
                Err(e) => {
                    return Err(e);
                },
            }
        };
        Ok(self.fill_message(prompt, opts, items, text))
    }
}

/// Whether a turn is a user's turn with text only.
pub open spec fn is_text_only(opts: FormatOpts) -> bool {
    &&& opts.role@ == "user"@
    &&& !opts.skip_image_token
    &&& !opts.skip_audio_token
    &&& opts.num_images == 0
    &&& opts.num_audios == 0
    &&& opts.video@.len() == 0
}

/// What formatting a turn for the model type `model_name` may return, where the
/// lower-case name of the type is `lower`.
pub open spec fn is_message_for(
    r: Result<FormattedMessage, Error>,
    model_name: Seq<char>,
    lower: Seq<char>,
    prompt: Seq<char>,
    opts: Option<&FormatOpts>,
) -> bool {
    match config_of(lower) {
        Some(format) => match opts {
            Some(o) => is_turn(r, lower, format, prompt, *o),
            None => forall|o: FormatOpts|
                is_text_only(o) ==> #[trigger] is_turn(r, lower, format, prompt, o),
        },
        None => r matches Err(Error::ShapeMismatch { cause: Cause::MissingKey(payload) })
            && payload.context == "MessageFormatter::for_model: model_type not in MODEL_CONFIG"
            && payload.key@ == model_name,
    }
}

/// Formats one turn for a model type; without options it is a user's turn with
/// text only.
pub fn get_message_json(model_name: &str, prompt: &str, opts: Option<&FormatOpts>) -> (r: Result<
    FormattedMessage,
    Error,
>)
    ensures
        is_message_for(r, model_name@, lowercase(model_name@), prompt@, opts),
        model_name.is_ascii() ==> is_message_for(
            r,
            model_name@,
            model_name@.map_values(|c: char| ascii_lowercase(c)),
            prompt@,
            opts,
        ),
{
    let formatter: MessageFormatter = MessageFormatter::for_model(model_name)?;
    match opts {
        Some(o) => formatter.format_message(prompt, o),
        None => {
            let defaults: FormatOpts = FormatOpts::get_message_default();
            formatter.format_message(prompt, &defaults)
        },
    }
}

/// A turn that is not a user's, or whose images and audio are left out, carries
/// the prompt and nothing else, in every format but those of the bare prompt with
/// image tokens and of videos.
pub proof fn law_silent_turns_carry_the_prompt_alone(
    prompt: Seq<char>,
    opts: FormatOpts,
    token: Seq<char>,
    first: bool,
    flag: bool,
)
    requires
        opts.role@ != "user"@ || (opts.skip_image_token && opts.skip_audio_token),
    ensures
        list_with_image(prompt, opts, first, flag) == Ok::<FormattedModel, Error>(
            FormattedModel::Message(
                opts.role@,
                ContentModel::Items(seq![ItemModel::Text(prompt)]),
            ),
        ),
        list_with_image_type(prompt, opts, flag, first) matches Ok(
            FormattedModel::Message(role, content),
        ) && role == opts.role@ && content == if opts.role@ == "assistant"@ {
            ContentModel::Text(prompt)
        } else if flag {
            ContentModel::Items(seq![ItemModel::ContentText(prompt)])
        } else {
            ContentModel::Items(seq![ItemModel::Text(prompt)])
        },
        with_token(prompt, opts, token, first) == Ok::<FormattedModel, Error>(
            FormattedModel::Message(opts.role@, ContentModel::Text(prompt)),
        ),
        with_numbered_tokens(prompt, opts) == Ok::<FormattedModel, Error>(
            FormattedModel::Message(opts.role@, ContentModel::Text(prompt)),
        ),
{
    let text = seq![ItemModel::Text(prompt)];
    let content = seq![ItemModel::ContentText(prompt)];
    let none = Seq::<ItemModel>::empty();
    assert(copies(ItemModel::Image, 0) =~= none);
    assert(copies(ItemModel::ImageUrl, 0) =~= none);
    assert(copies(ItemModel::Audio, 0) =~= none);
    assert(none + text =~= text);
    assert(text + none =~= text);
    assert(none + content =~= content);
    assert(content + none =~= content);
    assert(byte_len(token) * 0 == 0) by (nonlinear_arith);
    let empty = Seq::<char>::empty();
    assert(empty + (empty + prompt) =~= prompt);
    assert(empty + (prompt + empty) =~= prompt);
    assert(empty + empty + prompt =~= prompt);
}

/// A list message has one entry for the text, one per image and one per audio clip
/// that the turn shows.
pub proof fn law_lists_have_one_entry_per_announced_item(
    prompt: Seq<char>,
    opts: FormatOpts,
    first: bool,
    flag: bool,
)
    ensures
        list_with_image(prompt, opts, first, flag) matches Ok(
            FormattedModel::Message(_, ContentModel::Items(items)),
        ) ==> items.len() == 1 + shown_images(opts),
        list_with_image_type(prompt, opts, flag, first) matches Ok(
            FormattedModel::Message(_, ContentModel::Items(items)),
        ) ==> items.len() == 1 + shown_images(opts) + shown_audios(opts),
        with_videos(prompt, opts) matches Ok(
            FormattedModel::Message(_, ContentModel::Items(items)),
        ) ==> items.len() == opts.video@.len() as usize + 1,
{
}


/// Whether a turn reaches the format of its model: it has no more images than the model
/// takes, and no video that the model announces in its own way.
pub open spec fn reaches_its_format(model_name: Seq<char>, opts: FormatOpts) -> bool {
    &&& opts.num_images > 1 ==> !is_single_image_only(model_name)
    &&& opts.video@.len() > 0 ==> !has_video_format(model_name)
}

/// The entries of a list format: one for the text and one for each image of a user's turn,
/// the text in front of the images or behind them as the format has it. More than 1024
/// images are refused.
pub proof fn law_image_lists_hold_the_text_and_the_images(
    model_name: Seq<char>,
    format: MessageFormat,
    prompt: Seq<char>,
    opts: FormatOpts,
)
    requires
        reaches_its_format(model_name, opts),
        format is ListWithImage || format is ListWithImageFirst || format is ListWithImageUrlFirst,
    ensures
        ({
            let n = if opts.role@ == "user"@ && !opts.skip_image_token {
                opts.num_images as int
            } else {
                0
            };
            let r = formatted(model_name, format, prompt, opts);
            &&& r is Ok <==> n <= 1024
            &&& r matches Ok(m) ==> {
                &&& m matches FormattedModel::Message(role, ContentModel::Items(items))
                    && role == opts.role@ && items.len() == n + 1 && (format is ListWithImage
                    ==> items[0] == ItemModel::Text(prompt) && forall|i: int|
                    1 <= i <= n ==> #[trigger] items[i] == ItemModel::Image) && (
                format is ListWithImageFirst ==> items[n] == ItemModel::Text(prompt) && forall|i: int|
                    0 <= i < n ==> #[trigger] items[i] == ItemModel::Image) && (
                format is ListWithImageUrlFirst ==> items[n] == ItemModel::Text(prompt)
                    && forall|i: int| 0 <= i < n ==> #[trigger] items[i] == ItemModel::ImageUrl)
            }
        }),
{
}

/// The entries of a list format with audio: the text, the images of a user's turn in front
/// of it or behind it as the format has it, and the audio clips last. The turn of an
/// assistant is its text alone.
pub proof fn law_media_lists_hold_the_text_the_images_and_the_audio(
    model_name: Seq<char>,
    format: MessageFormat,
    prompt: Seq<char>,
    opts: FormatOpts,
)
    requires
        reaches_its_format(model_name, opts),
        format is ListWithImageType || format is ListWithImageTypeText
            || format is ListWithImageTypeTextImageLast,
    ensures
        ({
            let n = if opts.role@ == "user"@ && !opts.skip_image_token {
                opts.num_images as int
            } else {
                0
            };
            let a = if opts.role@ == "user"@ && !opts.skip_audio_token {
                opts.num_audios as int
            } else {
                0
            };
            let text = if format is ListWithImageType {
                ItemModel::ContentText(prompt)
            } else {
                ItemModel::Text(prompt)
            };
            let r = formatted(model_name, format, prompt, opts);
            &&& opts.role@ == "assistant"@ ==> r == Ok::<FormattedModel, Error>(
                FormattedModel::Message(opts.role@, ContentModel::Text(prompt)),
            )
            &&& opts.role@ != "assistant"@ ==> {
                &&& r is Ok <==> n <= 1024 && a <= 1024
                &&& r matches Ok(m) ==> {
                    &&& m matches FormattedModel::Message(role, ContentModel::Items(items))
                        && role == opts.role@ && items.len() == n + 1 + a && (
                    format is ListWithImageTypeTextImageLast ==> items[0] == text && forall|i: int|
                        1 <= i <= n ==> #[trigger] items[i] == ItemModel::Image) && (
                    format !is ListWithImageTypeTextImageLast ==> items[n] == text && forall|i: int|
                        0 <= i < n ==> #[trigger] items[i] == ItemModel::Image) && forall|i: int|
                        n < i <= n + a ==> #[trigger] items[i] == ItemModel::Audio
                }
            }
        }),
{
    reveal_strlit("assistant");
    reveal_strlit("user");
}

/// A format with a token puts one for each image of a user's turn next to the prompt, in
/// front of it or, where an image is started, behind it; numbered audio tags come first.
pub proof fn law_token_formats_put_a_token_per_image(
    model_name: Seq<char>,
    format: MessageFormat,
    prompt: Seq<char>,
    opts: FormatOpts,
    token: Seq<char>,
)
    requires
        reaches_its_format(model_name, opts),
        ({
            ||| format is ImageToken && token == "<image>"@
            ||| format is ImageTokenPipe && token == "<|image|>"@
            ||| format is ImageTokenNewline && token == "<image>\n"@
            ||| format is StartImageToken && token == "<start_of_image>"@
        }),
    ensures
        ({
            let n = if opts.role@ == "user"@ && !opts.skip_image_token {
                opts.num_images as nat
            } else {
                0
            };
            let a = if opts.role@ == "user"@ && !opts.skip_audio_token {
                opts.num_audios as nat
            } else {
                0
            };
            let r = formatted(model_name, format, prompt, opts);
            &&& r is Ok ==> n <= 1024 && a <= 1024
            &&& n > 1024 || a > 1024 ==> r is Err
            &&& r matches Ok(m) ==> m == FormattedModel::Message(
                opts.role@,
                ContentModel::Text(
                    if format is StartImageToken {
                        numbered_tags("<|audio_"@, a) + (prompt + text::repeated(token, n))
                    } else {
                        numbered_tags("<|audio_"@, a) + (text::repeated(token, n) + prompt)
                    },
                ),
            )
        }),
{
}

/// The numbered format counts the images and the audio clips of a user's turn up from one,
/// the images first and the prompt last.
pub proof fn law_numbered_formats_count_up_from_one(
    model_name: Seq<char>,
    prompt: Seq<char>,
    opts: FormatOpts,
    open: Seq<char>,
    count: nat,
)
    requires
        reaches_its_format(model_name, opts),
    ensures
        ({
            let n = if opts.role@ == "user"@ && !opts.skip_image_token {
                opts.num_images as nat
            } else {
                0
            };
            let a = if opts.role@ == "user"@ && !opts.skip_audio_token {
                opts.num_audios as nat
            } else {
                0
            };
            let r = formatted(model_name, MessageFormat::NumberedImageTokens, prompt, opts);
            &&& r is Ok ==> n <= 1024 && a <= 1024
            &&& n > 1024 || a > 1024 ==> r is Err
            &&& r matches Ok(m) ==> m == FormattedModel::Message(
                opts.role@,
                ContentModel::Text(
                    numbered_tags("<|image_"@, n) + numbered_tags("<|audio_"@, a) + prompt,
                ),
            )
        }),
        numbered_tags(open, 0) == Seq::<char>::empty(),
        numbered_tags(open, count + 1) == numbered_tags(open, count) + open + text::decimal(
            count + 1,
        ) + "|>"@,
{
}

/// The bare formats are the prompt, with one token per image in front of it or behind it
/// where the format has one, whoever's turn it is.
pub proof fn law_bare_formats_are_the_prompt(
    model_name: Seq<char>,
    prompt: Seq<char>,
    opts: FormatOpts,
)
    requires
        reaches_its_format(model_name, opts),
    ensures
        formatted(model_name, MessageFormat::PromptOnly, prompt, opts) == Ok::<
            FormattedModel,
            Error,
        >(FormattedModel::String(prompt)),
        formatted(model_name, MessageFormat::PromptWithImageToken, prompt, opts) matches Ok(m)
            ==> opts.num_images <= 1024 && m == FormattedModel::String(
            text::repeated("<image>"@, opts.num_images as nat) + prompt,
        ),
        formatted(model_name, MessageFormat::PromptWithStartImageToken, prompt, opts) matches Ok(m)
            ==> opts.num_images <= 1024 && m == FormattedModel::String(
            prompt + text::repeated("<start_of_image>"@, opts.num_images as nat),
        ),
{
}

/// A turn with videos holds an entry for each, with its path, the pixel budget and its own
/// rate, or the one rate given for all, or one frame per second; the text comes last.
pub proof fn law_videos_are_announced_in_order(
    model_name: Seq<char>,
    format: MessageFormat,
    prompt: Seq<char>,
    opts: FormatOpts,
    i: int,
)
    requires
        opts.num_images > 1 ==> !is_single_image_only(model_name),
        format is VideoWithText || opts.video@.len() > 0 && has_video_format(model_name),
        opts.video@.len() <= usize::MAX,
    ensures
        ({
            let n = opts.video@.len() as int;
            let rates = opts.fps@;
            let r = formatted(model_name, format, prompt, opts);
            &&& r is Ok <==> 1 <= n <= 1024 && (rates.len() <= 1 || rates.len() == n)
            &&& r matches Ok(m) ==> {
                &&& m matches FormattedModel::Message(role, ContentModel::Items(items))
                    && role == opts.role@ && items.len() == n + 1 && items[n] == ItemModel::Text(
                    prompt,
                ) && (0 <= i < n ==> items[i] == ItemModel::Video(
                    opts.video@[i]@,
                    opts.max_pixels,
                    if rates.len() == 0 {
                        1u32
                    } else if rates.len() == 1 {
                        rates[0]
                    } else {
                        rates[i]
                    },
                ))
            }
        }),
{
}

/// A model of one image refuses a turn of several, whatever its format.
pub proof fn law_models_of_one_image_refuse_several(
    model_name: Seq<char>,
    format: MessageFormat,
    prompt: Seq<char>,
    opts: FormatOpts,
)
    requires
        is_single_image_only(model_name),
        opts.num_images > 1,
    ensures
        formatted(model_name, format, prompt, opts) is Err,
{
}

/// A message for a known model type is what its format makes of the turn, and a refusal is
/// that of the format unless the allocator declined; a model type that is not known has no
/// message. Without options, the turn is a user's with text only.
pub proof fn law_messages_are_those_of_the_format(
    r: Result<FormattedMessage, Error>,
    model_name: Seq<char>,
    lower: Seq<char>,
    prompt: Seq<char>,
    opts: Option<&FormatOpts>,
    turn: FormatOpts,
)
    requires
        is_message_for(r, model_name, lower, prompt, opts),
        opts matches Some(o) ==> turn == *o,
        opts is None ==> turn.role@ == "user"@ && !turn.skip_image_token && !turn.skip_audio_token
            && turn.num_images == 0 && turn.num_audios == 0 && turn.video@.len() == 0,
    ensures
        config_of(lower) is None ==> r is Err,
        config_of(lower) matches Some(format) ==> {
            let stated = formatted(lower, format, prompt, turn);
            &&& r matches Ok(m) ==> stated == Ok::<FormattedModel, Error>(m@)
            &&& r matches Err(e) ==> stated == Err::<FormattedModel, Error>(e) || e
                == Error::OutOfMemory
            &&& stated matches Err(e) ==> r == Err::<FormattedMessage, Error>(e)
        },
{
    if config_of(lower) is Some && opts is None {
        assert(is_text_only(turn));
        assert(is_turn(r, lower, config_of(lower)->Some_0, prompt, turn));
    }
}

/// A formatter is found for the model types of the table, by their lower-case names, and
/// has the format that stands there.
pub proof fn law_formatters_are_found_by_name(
    r: Result<MessageFormatter, Error>,
    model_type: Seq<char>,
    lower: Seq<char>,
)
    requires
        is_formatter_for(r, model_type, lower),
    ensures
        r is Ok <==> exists|i: int|
            0 <= i < MODEL_CONFIG.len() && (#[trigger] MODEL_CONFIG[i]).0@ == lower,
        r matches Ok(formatter) ==> {
            &&& formatter.model_name@ == lower
            &&& exists|i: int|
                0 <= i < MODEL_CONFIG.len() && (#[trigger] MODEL_CONFIG[i]).0@ == lower
                    && MODEL_CONFIG[i].1 == formatter.format_type
        },
{
    lemma_config_from(lower, 0);
}

proof fn lemma_config_from(name: Seq<char>, i: int)
    requires
        0 <= i <= MODEL_CONFIG.len(),
    ensures
        config_from(name, i) is Some <==> exists|j: int|
            i <= j < MODEL_CONFIG.len() && (#[trigger] MODEL_CONFIG[j]).0@ == name,
        config_from(name, i) matches Some(format) ==> exists|j: int|
            i <= j < MODEL_CONFIG.len() && (#[trigger] MODEL_CONFIG[j]).0@ == name
                && MODEL_CONFIG[j].1 == format,
    decreases MODEL_CONFIG.len() - i,
{
    if i < MODEL_CONFIG.len() {
        lemma_config_from(name, i + 1);
        if MODEL_CONFIG[i].0@ == name {
            assert(i <= i < MODEL_CONFIG.len() && MODEL_CONFIG[i].0@ == name);
        }
    }
}

/// The model types of one image, and those with a video format, are the listed ones.
pub proof fn law_listed_models_have_their_limits(name: Seq<char>)
    ensures
        is_single_image_only(name) <==> {
            ||| name == "bunny-llama"@
            ||| name == "falcon_ocr"@
            ||| name == "llava-qwen2"@
            ||| name == "llava_next"@
            ||| name == "mllama"@
            ||| name == "multi_modality"@
            ||| name == "paligemma"@
        },
        has_video_format(name) <==> {
            ||| name == "gemma4"@
            ||| name == "qwen2_5_vl"@
            ||| name == "qwen2_vl"@
            ||| name == "qwen3_5"@
            ||| name == "qwen3_5_moe"@
            ||| name == "qwen3_omni_moe"@
            ||| name == "qwen3_vl"@
            ||| name == "qwen3_vl_moe"@
        },
{
    assert(SINGLE_IMAGE_ONLY_MODELS[0]@ == "bunny-llama"@);
    assert(SINGLE_IMAGE_ONLY_MODELS[1]@ == "falcon_ocr"@);
    assert(SINGLE_IMAGE_ONLY_MODELS[2]@ == "llava-qwen2"@);
    assert(SINGLE_IMAGE_ONLY_MODELS[3]@ == "llava_next"@);
    assert(SINGLE_IMAGE_ONLY_MODELS[4]@ == "mllama"@);
    assert(SINGLE_IMAGE_ONLY_MODELS[5]@ == "multi_modality"@);
    assert(SINGLE_IMAGE_ONLY_MODELS[6]@ == "paligemma"@);
    assert(VIDEO_FORMAT_MODELS[0]@ == "gemma4"@);
    assert(VIDEO_FORMAT_MODELS[1]@ == "qwen2_5_vl"@);
    assert(VIDEO_FORMAT_MODELS[2]@ == "qwen2_vl"@);
    assert(VIDEO_FORMAT_MODELS[3]@ == "qwen3_5"@);
    assert(VIDEO_FORMAT_MODELS[4]@ == "qwen3_5_moe"@);
    assert(VIDEO_FORMAT_MODELS[5]@ == "qwen3_omni_moe"@);
    assert(VIDEO_FORMAT_MODELS[6]@ == "qwen3_vl"@);
    assert(VIDEO_FORMAT_MODELS[7]@ == "qwen3_vl_moe"@);
}


/// A formatted turn is what the format makes of it, or the allocator declined; the bare
/// prompt needs no allocator.
pub proof fn law_turns_are_what_the_format_makes(
    r: Result<FormattedMessage, Error>,
    model_name: Seq<char>,
    format: MessageFormat,
    prompt: Seq<char>,
    opts: FormatOpts,
)
    requires
        is_turn(r, model_name, format, prompt, opts),
    ensures
        r matches Ok(m) ==> formatted(model_name, format, prompt, opts) == Ok::<
            FormattedModel,
            Error,
        >(m@),
        r matches Err(e) ==> formatted(model_name, format, prompt, opts) == Err::<
            FormattedModel,
            Error,
        >(e) || e == Error::OutOfMemory,
        formatted(model_name, format, prompt, opts) matches Err(e) ==> r == Err::<
            FormattedMessage,
            Error,
        >(e),
        format is PromptOnly && reaches_its_format(model_name, opts) ==> r is Ok,
{
}

/// Only the capital letters of ASCII have another lower case, each its own small letter.
pub proof fn law_capitals_have_their_small_letters(c: char)
    ensures
        'A' <= c && c <= 'Z' ==> ascii_lowercase(c) as u32 == c as u32 + 32,
        !('A' <= c && c <= 'Z') ==> ascii_lowercase(c) == c,
        ascii_lowercase(ascii_lowercase(c)) == ascii_lowercase(c),
{
}

/// What a list of entries says is what each of them says, in order.
pub proof fn law_lists_say_what_their_entries_say(items: Seq<ContentItem>, i: int)
    ensures
        items_model(items).len() == items.len(),
        0 <= i < items.len() ==> match items[i] {
            ContentItem::Text { text } => items_model(items)[i] == ItemModel::Text(text@),
            ContentItem::ContentText { text } => items_model(items)[i] == ItemModel::ContentText(
                text@,
            ),
            ContentItem::Image => items_model(items)[i] == ItemModel::Image,
            ContentItem::ImageUrl => items_model(items)[i] == ItemModel::ImageUrl,
            ContentItem::Audio => items_model(items)[i] == ItemModel::Audio,
            ContentItem::Video { video, max_pixels, fps } => items_model(items)[i]
                == ItemModel::Video(video@, max_pixels, fps),
        },
{
}


/// The model types that have a format are the listed ones, and each has the format that it
/// is listed under.
pub proof fn law_listed_models_have_their_format(name: Seq<char>)
    ensures
        config_of(name) is Some <==> {
            ||| name == "aya_vision"@
            ||| name == "bunny-llama"@
            ||| name == "cohere2_vision"@
            ||| name == "deepseek_vl_v2"@
            ||| name == "deepseekocr"@
            ||| name == "deepseekocr_2"@
            ||| name == "dots_ocr"@
            ||| name == "ernie4_5_moe_vl"@
            ||| name == "falcon_ocr"@
            ||| name == "florence2"@
            ||| name == "gemma3"@
            ||| name == "gemma3n"@
            ||| name == "gemma4"@
            ||| name == "glm4v"@
            ||| name == "glm4v_moe"@
            ||| name == "glm_ocr"@
            ||| name == "granite4_vision"@
            ||| name == "granite_vision"@
            ||| name == "hunyuan_vl"@
            ||| name == "idefics2"@
            ||| name == "idefics3"@
            ||| name == "internvl_chat"@
            ||| name == "jina_vlm"@
            ||| name == "jvlm"@
            ||| name == "kimi_k25"@
            ||| name == "kimi_vl"@
            ||| name == "lfm2-vl"@
            ||| name == "lfm2_vl"@
            ||| name == "llama4"@
            ||| name == "llava"@
            ||| name == "llava-qwen2"@
            ||| name == "llava_next"@
            ||| name == "llava_qwen2"@
            ||| name == "minicpmo"@
            ||| name == "mistral3"@
            ||| name == "mllama"@
            ||| name == "molmo"@
            ||| name == "molmo2"@
            ||| name == "molmo_point"@
            ||| name == "moondream3"@
            ||| name == "multi_modality"@
            ||| name == "nemotron_h_nano_omni"@
            ||| name == "nemotronh_nano_omni_reasoning_v3"@
            ||| name == "paddleocr_vl"@
            ||| name == "paligemma"@
            ||| name == "phi3_v"@
            ||| name == "phi4-siglip"@
            ||| name == "phi4mm"@
            ||| name == "pixtral"@
            ||| name == "qwen2_5_vl"@
            ||| name == "qwen2_vl"@
            ||| name == "qwen3_5"@
            ||| name == "qwen3_5_moe"@
            ||| name == "qwen3_omni_moe"@
            ||| name == "qwen3_vl"@
            ||| name == "qwen3_vl_moe"@
            ||| name == "smolvlm"@
            ||| name == "youtu_vl"@
        },
        config_of(name) == Some(MessageFormat::ListWithImage) ==> {
            ||| name == "aya_vision"@
            ||| name == "cohere2_vision"@
            ||| name == "granite4_vision"@
            ||| name == "granite_vision"@
            ||| name == "idefics2"@
            ||| name == "kimi_k25"@
            ||| name == "kimi_vl"@
            ||| name == "llama4"@
            ||| name == "llava"@
            ||| name == "llava_next"@
            ||| name == "mllama"@
            ||| name == "qwen2_vl"@
        },
        config_of(name) == Some(MessageFormat::ImageTokenNewline) ==> {
            ||| name == "bunny-llama"@
            ||| name == "deepseek_vl_v2"@
            ||| name == "deepseekocr"@
            ||| name == "deepseekocr_2"@
            ||| name == "llava-qwen2"@
            ||| name == "llava_qwen2"@
            ||| name == "phi4-siglip"@
        },
        config_of(name) == Some(MessageFormat::ListWithImageFirst) ==> {
            ||| name == "dots_ocr"@
            ||| name == "glm4v"@
            ||| name == "glm4v_moe"@
            ||| name == "glm_ocr"@
            ||| name == "hunyuan_vl"@
            ||| name == "idefics3"@
            ||| name == "lfm2-vl"@
            ||| name == "lfm2_vl"@
            ||| name == "mistral3"@
            ||| name == "molmo2"@
            ||| name == "molmo_point"@
            ||| name == "paddleocr_vl"@
            ||| name == "qwen2_5_vl"@
            ||| name == "qwen3_5"@
            ||| name == "qwen3_5_moe"@
            ||| name == "qwen3_omni_moe"@
            ||| name == "qwen3_vl"@
            ||| name == "qwen3_vl_moe"@
            ||| name == "smolvlm"@
            ||| name == "youtu_vl"@
        },
        config_of(name) == Some(MessageFormat::ListWithImageUrlFirst) ==> name == "ernie4_5_moe_vl"@,
        config_of(name) == Some(MessageFormat::PromptOnly) ==> {
            ||| name == "falcon_ocr"@
            ||| name == "florence2"@
            ||| name == "molmo"@
            ||| name == "moondream3"@
        },
        config_of(name) == Some(MessageFormat::StartImageToken) ==> name == "gemma3"@,
        config_of(name) == Some(MessageFormat::ListWithImageTypeText) ==> {
            ||| name == "gemma3n"@
            ||| name == "gemma4"@
            ||| name == "pixtral"@
        },
        config_of(name) == Some(MessageFormat::ListWithImageType) ==> {
            ||| name == "internvl_chat"@
            ||| name == "nemotron_h_nano_omni"@
            ||| name == "nemotronh_nano_omni_reasoning_v3"@
        },
        config_of(name) == Some(MessageFormat::ImageTokenPipe) ==> {
            ||| name == "jina_vlm"@
            ||| name == "jvlm"@
        },
        config_of(name) == Some(MessageFormat::ImageToken) ==> {
            ||| name == "minicpmo"@
            ||| name == "multi_modality"@
        },
        config_of(name) == Some(MessageFormat::PromptWithImageToken) ==> name == "paligemma"@,
        config_of(name) == Some(MessageFormat::NumberedImageTokens) ==> {
            ||| name == "phi3_v"@
            ||| name == "phi4mm"@
        },
        config_of(name) != Some(MessageFormat::ListWithImageTypeTextImageLast),
        config_of(name) != Some(MessageFormat::PromptWithStartImageToken),
        config_of(name) != Some(MessageFormat::VideoWithText),
{
    lemma_config_from(name, 0);
    assert(MODEL_CONFIG[0].0@ == "aya_vision"@);
    assert(MODEL_CONFIG[1].0@ == "bunny-llama"@);
    assert(MODEL_CONFIG[2].0@ == "cohere2_vision"@);
    assert(MODEL_CONFIG[3].0@ == "deepseek_vl_v2"@);
    assert(MODEL_CONFIG[4].0@ == "deepseekocr"@);
    assert(MODEL_CONFIG[5].0@ == "deepseekocr_2"@);
    assert(MODEL_CONFIG[6].0@ == "dots_ocr"@);
    assert(MODEL_CONFIG[7].0@ == "ernie4_5_moe_vl"@);
    assert(MODEL_CONFIG[8].0@ == "falcon_ocr"@);
    assert(MODEL_CONFIG[9].0@ == "florence2"@);
    assert(MODEL_CONFIG[10].0@ == "gemma3"@);
    assert(MODEL_CONFIG[11].0@ == "gemma3n"@);
    assert(MODEL_CONFIG[12].0@ == "gemma4"@);
    assert(MODEL_CONFIG[13].0@ == "glm4v"@);
    assert(MODEL_CONFIG[14].0@ == "glm4v_moe"@);
    assert(MODEL_CONFIG[15].0@ == "glm_ocr"@);
    assert(MODEL_CONFIG[16].0@ == "granite4_vision"@);
    assert(MODEL_CONFIG[17].0@ == "granite_vision"@);
    assert(MODEL_CONFIG[18].0@ == "hunyuan_vl"@);
    assert(MODEL_CONFIG[19].0@ == "idefics2"@);
    assert(MODEL_CONFIG[20].0@ == "idefics3"@);
    assert(MODEL_CONFIG[21].0@ == "internvl_chat"@);
    assert(MODEL_CONFIG[22].0@ == "jina_vlm"@);
    assert(MODEL_CONFIG[23].0@ == "jvlm"@);
    assert(MODEL_CONFIG[24].0@ == "kimi_k25"@);
    assert(MODEL_CONFIG[25].0@ == "kimi_vl"@);
    assert(MODEL_CONFIG[26].0@ == "lfm2-vl"@);
    assert(MODEL_CONFIG[27].0@ == "lfm2_vl"@);
    assert(MODEL_CONFIG[28].0@ == "llama4"@);
    assert(MODEL_CONFIG[29].0@ == "llava"@);
    assert(MODEL_CONFIG[30].0@ == "llava-qwen2"@);
    assert(MODEL_CONFIG[31].0@ == "llava_next"@);
    assert(MODEL_CONFIG[32].0@ == "llava_qwen2"@);
    assert(MODEL_CONFIG[33].0@ == "minicpmo"@);
    assert(MODEL_CONFIG[34].0@ == "mistral3"@);
    assert(MODEL_CONFIG[35].0@ == "mllama"@);
    assert(MODEL_CONFIG[36].0@ == "molmo"@);
    assert(MODEL_CONFIG[37].0@ == "molmo2"@);
    assert(MODEL_CONFIG[38].0@ == "molmo_point"@);
    assert(MODEL_CONFIG[39].0@ == "moondream3"@);
    assert(MODEL_CONFIG[40].0@ == "multi_modality"@);
    assert(MODEL_CONFIG[41].0@ == "nemotron_h_nano_omni"@);
    assert(MODEL_CONFIG[42].0@ == "nemotronh_nano_omni_reasoning_v3"@);
    assert(MODEL_CONFIG[43].0@ == "paddleocr_vl"@);
    assert(MODEL_CONFIG[44].0@ == "paligemma"@);
    assert(MODEL_CONFIG[45].0@ == "phi3_v"@);
    assert(MODEL_CONFIG[46].0@ == "phi4-siglip"@);
    assert(MODEL_CONFIG[47].0@ == "phi4mm"@);
    assert(MODEL_CONFIG[48].0@ == "pixtral"@);
    assert(MODEL_CONFIG[49].0@ == "qwen2_5_vl"@);
    assert(MODEL_CONFIG[50].0@ == "qwen2_vl"@);
    assert(MODEL_CONFIG[51].0@ == "qwen3_5"@);
    assert(MODEL_CONFIG[52].0@ == "qwen3_5_moe"@);
    assert(MODEL_CONFIG[53].0@ == "qwen3_omni_moe"@);
    assert(MODEL_CONFIG[54].0@ == "qwen3_vl"@);
    assert(MODEL_CONFIG[55].0@ == "qwen3_vl_moe"@);
    assert(MODEL_CONFIG[56].0@ == "smolvlm"@);
    assert(MODEL_CONFIG[57].0@ == "youtu_vl"@);
}

} // verus!
