//! Host-side logic of a vision-language model: prompt assembly, image
//! resampling, video frame planning, and the configuration, preprocessing and
//! feature layout of the LFM2-VL family.
//!
//! Nothing here computes with floating point. Where a rule needs a number that
//! only floating-point arithmetic gives, the function takes that number as an
//! argument and states what it does for every value of it.

pub mod array;
pub mod buffer;
pub mod error;
pub mod model_validation;
pub mod text;
pub mod vlm;
pub mod weights;
