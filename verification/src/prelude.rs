//! Commonly used types.

pub use crate::config::{Config, DictionaryConfig, InputConfig, ModelConfig, UIConfig};
pub use crate::engine::{Candidate, InputEngine, InputState};
pub use crate::model::{ModelBackend, PredictionResult, PredictionSource};
pub use crate::dictionary::{DictEntry, Dictionary};
pub use crate::pinyin::{get_candidates, FuzzyPinyinMatcher, PinyinParser};
