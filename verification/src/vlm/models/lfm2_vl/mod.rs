//! The LFM2-VL family: a language model, a vision tower that works at an
//! image's own resolution, and a projector that folds patches into tokens.

pub mod config;
pub mod language;
pub mod layers;
pub mod model;
pub mod patchify;
pub mod processor;
pub mod projector;
pub mod tiling;
pub mod vision;
