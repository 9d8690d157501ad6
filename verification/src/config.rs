//! Configuration of the input method: model, input behaviour, UI and
//! dictionary settings with their defaults.
//!
//! Reading and writing the TOML file is done outside the library; the
//! fractional settings (temperature, frequency decay) are held here in
//! thousandths.

use vstd::prelude::*;
use vstd::string::StringExecFns;

verus! {

/// Main configuration structure.
#[derive(Debug, Clone)]
pub struct Config {
    /// Model configuration
    pub model: ModelConfig,
    /// Input behavior settings
    pub input: InputConfig,
    /// UI settings
    pub ui: UIConfig,
    /// Dictionary settings
    pub dictionary: DictionaryConfig,
}

/// Model configuration.
#[derive(Debug, Clone)]
pub struct ModelConfig {
    /// Model type: "none", "remote", "local" or "hybrid"
    pub model_type: String,
    /// Remote model API endpoint
    pub api_endpoint: String,
    /// API key for remote model
    pub api_key: Option<String>,
    /// Local model path
    pub local_model_path: Option<String>,
    /// Model name for remote API
    pub model_name: String,
    /// Maximum tokens for prediction
    pub max_tokens: u32,
    /// Temperature for generation, in thousandths (700 is 0.7)
    pub temperature_milli: u32,
    /// Enable caching for predictions
    pub enable_cache: bool,
    /// Cache size (number of entries)
    pub cache_size: usize,
}

/// Input behavior configuration.
#[derive(Debug, Clone)]
pub struct InputConfig {
    /// Maximum preedit length
    pub max_preedit_length: usize,
    /// Number of candidates to show
    pub num_candidates: usize,
    /// Enable fuzzy pinyin matching
    pub fuzzy_pinyin: bool,
    /// Enable smart correction
    pub smart_correction: bool,
    /// Page size for candidate list
    pub page_size: usize,
    /// Auto-commit on punctuation
    pub auto_commit_on_punctuation: bool,
    /// Enable phrase prediction
    pub enable_phrase_prediction: bool,
    /// Minimum input length for AI prediction
    pub min_ai_input_length: usize,
}

/// UI configuration.
#[derive(Debug, Clone)]
pub struct UIConfig {
    /// Show candidate numbers
    pub show_candidate_numbers: bool,
    /// Vertical candidate list
    pub vertical_candidate_list: bool,
    /// Font size for candidates
    pub font_size: u32,
    /// Custom font family
    pub font_family: Option<String>,
}

/// Dictionary configuration.
#[derive(Debug, Clone)]
pub struct DictionaryConfig {
    /// System dictionary path
    pub system_dictionary: String,
    /// User dictionary path
    pub user_dictionary: String,
    /// Enable user dictionary learning
    pub enable_learning: bool,
    /// Maximum user dictionary size
    pub max_user_dictionary_size: usize,
    /// Frequency decay factor, in thousandths (990 is 0.99)
    pub frequency_decay_milli: u32,
}

pub fn default_model_type() -> (s: String)
    ensures
        s@ == "none"@,
{
    String::from_str("none")
}

pub fn default_api_endpoint() -> (s: String)
    ensures
        s@ == "http://localhost:8080/v1"@,
{
    String::from_str("http://localhost:8080/v1")
}

pub fn default_model_name() -> (s: String)
    ensures
        s@ == "qwen-0.8b"@,
{
    String::from_str("qwen-0.8b")
}

pub fn default_max_tokens() -> (n: u32)
    ensures
        n == 50,
{
    50
}

/// Default temperature, 0.7, in thousandths.
pub fn default_temperature() -> (n: u32)
    ensures
        n == 700,
{
    700
}

pub fn default_true() -> (b: bool)
    ensures
        b,
{
    true
}

pub fn default_cache_size() -> (n: usize)
    ensures
        n == 10000,
{
    10000
}

pub fn default_max_preedit() -> (n: usize)
    ensures
        n == 64,
{
    64
}

pub fn default_num_candidates() -> (n: usize)
    ensures
        n == 30,
{
    30
}

pub fn default_page_size() -> (n: usize)
    ensures
        n == 5,
{
    5
}

pub fn default_min_ai_input() -> (n: usize)
    ensures
        n == 2,
{
    2
}

pub fn default_font_size() -> (n: u32)
    ensures
        n == 12,
{
    12
}

pub fn default_system_dict() -> (s: String)
    ensures
        s@ == "/usr/share/ailater-im/dict/system.dict"@,
{
    String::from_str("/usr/share/ailater-im/dict/system.dict")
}

pub fn default_user_dict() -> (s: String)
    ensures
        s@ == "~/.local/share/ailater-im/user.dict"@,
{
    String::from_str("~/.local/share/ailater-im/user.dict")
}

pub fn default_user_dict_size() -> (n: usize)
    ensures
        n == 100000,
{
    100000
}

/// Default frequency decay, 0.99, in thousandths.
pub fn default_decay_factor() -> (n: u32)
    ensures
        n == 990,
{
    990
}

impl Default for ModelConfig {
    fn default() -> (c: Self)
        ensures
            c.model_type@ == "none"@,
            c.api_endpoint@ == "http://localhost:8080/v1"@,
            c.api_key is None,
            c.local_model_path is None,
            c.model_name@ == "qwen-0.8b"@,
            c.max_tokens == 50,
            c.temperature_milli == 700,
            c.enable_cache,
            c.cache_size == 10000,
    {
        ModelConfig {
            model_type: default_model_type(),
            api_endpoint: default_api_endpoint(),
            api_key: None,
            local_model_path: None,
            model_name: default_model_name(),
            max_tokens: default_max_tokens(),
            temperature_milli: default_temperature(),
            enable_cache: default_true(),
            cache_size: default_cache_size(),
        }
    }
}

impl Default for InputConfig {
    fn default() -> (c: Self)
        ensures
            c.max_preedit_length == 64,
            c.num_candidates == 30,
            c.fuzzy_pinyin,
            c.smart_correction,
            c.page_size == 5,
            c.auto_commit_on_punctuation,
            c.enable_phrase_prediction,
            c.min_ai_input_length == 2,
    {
        InputConfig {
            max_preedit_length: default_max_preedit(),
            num_candidates: default_num_candidates(),
            fuzzy_pinyin: default_true(),
            smart_correction: default_true(),
            page_size: default_page_size(),
            auto_commit_on_punctuation: default_true(),
            enable_phrase_prediction: default_true(),
            min_ai_input_length: default_min_ai_input(),
        }
    }
}

impl Default for UIConfig {
    fn default() -> (c: Self)
        ensures
            c.show_candidate_numbers,
            !c.vertical_candidate_list,
            c.font_size == 12,
            c.font_family is None,
    {
        UIConfig {
            show_candidate_numbers: default_true(),
            vertical_candidate_list: false,
            font_size: default_font_size(),
            font_family: None,
        }
    }
}

impl Default for DictionaryConfig {
    fn default() -> (c: Self)
        ensures
            c.system_dictionary@ == "/usr/share/ailater-im/dict/system.dict"@,
            c.user_dictionary@ == "~/.local/share/ailater-im/user.dict"@,
            c.enable_learning,
            c.max_user_dictionary_size == 100000,
            c.frequency_decay_milli == 990,
    {
        DictionaryConfig {
            system_dictionary: default_system_dict(),
            user_dictionary: default_user_dict(),
            enable_learning: default_true(),
            max_user_dictionary_size: default_user_dict_size(),
            frequency_decay_milli: default_decay_factor(),
        }
    }
}

impl DictionaryConfig {
    /// A copy of the settings.
    pub fn duplicate(&self) -> (r: DictionaryConfig)
        ensures
            r.system_dictionary@ == self.system_dictionary@,
            r.user_dictionary@ == self.user_dictionary@,
            r.enable_learning == self.enable_learning,
            r.max_user_dictionary_size == self.max_user_dictionary_size,
            r.frequency_decay_milli == self.frequency_decay_milli,
    {
        DictionaryConfig {
            system_dictionary: self.system_dictionary.clone(),
            user_dictionary: self.user_dictionary.clone(),
            enable_learning: self.enable_learning,
            max_user_dictionary_size: self.max_user_dictionary_size,
            frequency_decay_milli: self.frequency_decay_milli,
        }
    }
}

impl Default for Config {
    fn default() -> (c: Self)
        ensures
            c.model.model_type@ == "none"@,
            c.model.api_endpoint@ == "http://localhost:8080/v1"@,
            c.model.api_key is None,
            c.model.local_model_path is None,
            c.model.model_name@ == "qwen-0.8b"@,
            c.model.max_tokens == 50,
            c.model.temperature_milli == 700,
            c.model.enable_cache,
            c.model.cache_size == 10000,
            c.input.max_preedit_length == 64,
            c.input.num_candidates == 30,
            c.input.fuzzy_pinyin,
            c.input.smart_correction,
            c.input.page_size == 5,
            c.input.auto_commit_on_punctuation,
            c.input.enable_phrase_prediction,
            c.input.min_ai_input_length == 2,
            c.ui.show_candidate_numbers,
            !c.ui.vertical_candidate_list,
            c.ui.font_size == 12,
            c.ui.font_family is None,
            c.dictionary.system_dictionary@ == "/usr/share/ailater-im/dict/system.dict"@,
            c.dictionary.user_dictionary@ == "~/.local/share/ailater-im/user.dict"@,
            c.dictionary.enable_learning,
            c.dictionary.max_user_dictionary_size == 100000,
            c.dictionary.frequency_decay_milli == 990,
    {
        Config {
            model: ModelConfig::default(),
            input: InputConfig::default(),
            ui: UIConfig::default(),
            dictionary: DictionaryConfig::default(),
        }
    }
}

/// A path with a leading `~` replaced by the home directory, as the
/// dictionary paths are expanded; other paths are returned unchanged.
pub fn expand_home(path: &str, home: &str) -> (r: String)
    ensures
        r@ == (if path@.len() > 0 && path@[0] == '~' { home@ + path@.skip(1) } else { path@ }),
{
    let cs = crate::text::chars_of(path);
    if cs.len() > 0 && cs[0] == '~' {
        let mut r = String::from_str(home);
        let mut i: usize = 1;
        while i < cs.len()
            invariant
                1 <= i <= cs.len(),
                cs@ == path@,
                r@ == home@ + cs@.subrange(1, i as int),
            decreases cs.len() - i,
        {
            crate::text::push_char(&mut r, cs[i]);
            i = i + 1;
            assert(r@ =~= home@ + cs@.subrange(1, i as int));
        }
        assert(cs@.subrange(1, cs.len() as int) =~= path@.skip(1));
        r
    } else {
        String::from_str(path)
    }
}

} // verus!
