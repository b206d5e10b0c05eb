//! Vision-language models: prompts, images, video and model families.

pub mod image;
pub mod load;
pub mod messages;
pub mod models;
pub mod prompt;
pub mod resize;
pub mod video;
