//! ailater-im: the verified core of a pinyin input method for fcitx5.
//!
//! The library holds the key model, the configuration, the pinyin
//! segmenter, the dictionary with its text format, the prediction
//! types and the input engine that turns key events into preedit text,
//! candidates and committed text.

pub mod ffi;
pub mod text;
pub mod pinyin;
pub mod config;
pub mod dictionary;
pub mod model;
pub mod candidates;
pub mod engine;
pub mod generation;
pub mod prelude;

pub use config::Config;
pub use engine::InputEngine;

use vstd::prelude::*;

verus! {

/// Name of the input method.
pub const IM_NAME: &'static str = "AI Later";

/// Unique identifier of the input method.
pub const IM_UNIQUE_NAME: &'static str = "ai-later";

/// Language code (Simplified Chinese).
pub const IM_LANG_CODE: &'static str = "zh_CN";

} // verus!
