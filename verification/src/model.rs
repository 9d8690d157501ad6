//! AI prediction: the backend interface, prediction results, the prompt
//! sent to a chat-completion model, the reading of its reply, the
//! prediction cache and the choice of backend from the configuration.
//!
//! The HTTP client itself lives outside the library; a backend is any
//! type implementing `ModelBackend`. Confidences are held in thousandths.

use vstd::prelude::*;
use vstd::string::StringExecFns;
use crate::text::{chars_of, push_char, spec_lines, split_lines, string_from_chars};
use crate::pinyin::{copy_chars, same_chars};

verus! {

/// Where a prediction comes from.
#[derive(Debug, Clone, Copy, PartialEq, Eq, Structural)]
pub enum PredictionSource {
    /// From AI model
    AIModel,
    /// From dictionary
    Dictionary,
    /// From user history
    UserHistory,
    /// From fuzzy matching
    FuzzyMatch,
    /// Built-in pinyin mapping
    BuiltIn,
}

/// Prediction result from the model.
#[derive(Debug, Clone)]
pub struct PredictionResult {
    /// The predicted text
    pub text: String,
    /// Confidence score in thousandths (1000 is 1.0)
    pub confidence_milli: i64,
    /// Source of the prediction
    pub source: PredictionSource,
}

/// The mathematical value of a prediction.
pub struct PredictionView {
    pub text: Seq<char>,
    pub confidence_milli: int,
    pub source: PredictionSource,
}

impl View for PredictionResult {
    type V = PredictionView;

    open spec fn view(&self) -> PredictionView {
        PredictionView { text: self.text@, confidence_milli: self.confidence_milli as int, source: self.source }
    }
}

impl PredictionResult {
    /// A copy of the prediction.
    pub fn duplicate(&self) -> (r: PredictionResult)
        ensures
            r@ == self@,
    {
        PredictionResult { text: self.text.clone(), confidence_milli: self.confidence_milli, source: self.source }
    }
}

/// The view of a list of predictions.
pub open spec fn predictions_view(v: Seq<PredictionResult>) -> Seq<PredictionView> {
    v.map_values(|p: PredictionResult| p@)
}

/// A copy of a list of predictions.
pub fn duplicate_predictions(v: &Vec<PredictionResult>) -> (r: Vec<PredictionResult>)
    ensures
        predictions_view(r@) == predictions_view(v@),
{
    let mut r: Vec<PredictionResult> = Vec::new();
    let mut i: usize = 0;
    while i < v.len()
        invariant
            i <= v.len(),
            predictions_view(r@) == predictions_view(v@).take(i as int),
        decreases v.len() - i,
    {
        let ghost before = predictions_view(r@);
        let d = v[i].duplicate();
        r.push(d);
        assert(predictions_view(r@) =~= before.push(v@[i as int]@));
        i = i + 1;
        assert(predictions_view(r@) =~= predictions_view(v@).take(i as int));
    }
    assert(predictions_view(v@).take(v.len() as int) =~= predictions_view(v@));
    r
}

/// Model client interface for different backends; implement it to add a
/// backend.
///
/// The two spec functions say which answers a backend may give. Their
/// defaults allow every answer, so a backend that does not define them
/// is taken to answer anything; the backends of this library define them.
pub trait ModelBackend {
    /// `b` is an answer the backend may give to `is_available`.
    open spec fn availability_answer(&self, b: bool) -> bool {
        true
    }

    /// `r` is an answer the backend may give to `predict` on `context`
    /// and `input`.
    open spec fn prediction_answer(&self, context: Seq<char>, input: Seq<char>, r: Seq<PredictionView>) -> bool {
        true
    }

    /// Predict next characters/phrases given input context.
    fn predict(&self, context: &str, input: &str) -> (r: Vec<PredictionResult>)
        ensures
            self.prediction_answer(context@, input@, predictions_view(r@)),
    ;

    /// Check if model is available.
    fn is_available(&self) -> (b: bool)
        ensures
            self.availability_answer(b),
    ;
}

/// No-op model client for when AI is disabled.
pub struct NoOpModelClient;

impl ModelBackend for NoOpModelClient {
    /// Never available.
    open spec fn availability_answer(&self, b: bool) -> bool {
        !b
    }

    /// Never any prediction.
    open spec fn prediction_answer(&self, context: Seq<char>, input: Seq<char>, r: Seq<PredictionView>) -> bool {
        r.len() == 0
    }

    fn predict(&self, context: &str, input: &str) -> (r: Vec<PredictionResult>) {
        Vec::new()
    }

    fn is_available(&self) -> (b: bool) {
        false
    }
}

/// Hybrid model client: uses the remote backend when there is one and it
/// is available.
pub struct HybridModelClient<R> {
    remote: Option<R>,
}

impl<R> HybridModelClient<R> {
    /// The remote backend the client holds, if any.
    pub closed spec fn remote_backend(&self) -> Option<R> {
        self.remote
    }

    /// The client holds a remote backend.
    pub open spec fn holds_remote(&self) -> bool {
        self.remote_backend() is Some
    }
}

impl<R: ModelBackend> HybridModelClient<R> {
    /// A hybrid client over the given remote backend, if any.
    pub fn with_remote(remote: Option<R>) -> (c: Self)
        ensures
            c.remote_backend() == remote,
    {
        HybridModelClient { remote }
    }

    /// Whether the client has a remote backend.
    pub fn has_remote(&self) -> (b: bool)
        ensures
            b == self.holds_remote(),
    {
        self.remote.is_some()
    }
}

impl<R: ModelBackend> ModelBackend for HybridModelClient<R> {
    /// Available exactly when the remote backend is: an answer of the
    /// remote backend, and never without one.
    open spec fn availability_answer(&self, b: bool) -> bool {
        match self.remote_backend() {
            Some(rm) => rm.availability_answer(b),
            None => !b,
        }
    }

    /// The remote backend's predictions when it answers that it is
    /// available, none when it answers that it is not or when there is
    /// no remote backend.
    open spec fn prediction_answer(&self, context: Seq<char>, input: Seq<char>, r: Seq<PredictionView>) -> bool {
        match self.remote_backend() {
            Some(rm) => {
                ||| rm.availability_answer(false) && r.len() == 0
                ||| rm.availability_answer(true) && rm.prediction_answer(context, input, r)
            },
            None => r.len() == 0,
        }
    }

    fn predict(&self, context: &str, input: &str) -> (r: Vec<PredictionResult>) {
        let mut results: Vec<PredictionResult> = Vec::new();
        match &self.remote {
            Some(remote) => {
                if remote.is_available() {
                    results = remote.predict(context, input);
                }
            }
            None => {}
        }
        results
    }

    fn is_available(&self) -> (b: bool) {
        match &self.remote {
            Some(remote) => remote.is_available(),
            None => false,
        }
    }
}

/// Which backend a model type selects.
#[derive(Debug, Clone, Copy, PartialEq, Eq, Structural)]
pub enum ModelKind {
    /// The remote HTTP backend alone ("remote").
    Remote,
    /// No backend ("none" or "disabled").
    Disabled,
    /// A hybrid client, with the remote backend for "hybrid" and without
    /// any backend for every other model type.
    Hybrid { with_remote: bool },
}

/// The backend that a model type selects.
pub open spec fn spec_model_kind(model_type: Seq<char>) -> ModelKind {
    if model_type == "remote"@ {
        ModelKind::Remote
    } else if model_type == "none"@ || model_type == "disabled"@ {
        ModelKind::Disabled
    } else {
        ModelKind::Hybrid { with_remote: model_type == "hybrid"@ }
    }
}

/// The backend that a model type selects (see `spec_model_kind`).
pub fn model_kind(model_type: &str) -> (k: ModelKind)
    ensures
        k == spec_model_kind(model_type@),
{
    let t = String::from_str(model_type);
    if t == String::from_str("remote") {
        ModelKind::Remote
    } else if t == String::from_str("none") || t == String::from_str("disabled") {
        ModelKind::Disabled
    } else {
        ModelKind::Hybrid { with_remote: t == String::from_str("hybrid") }
    }
}

// ---------------------------------------------------------------------
// Prompt and reply
// ---------------------------------------------------------------------

/// Start of the prompt, up to the context.
pub const PROMPT_HEAD: &'static str = "你是一个中文输入法助手。根据用户的输入上下文和当前拼音输入，预测用户可能想输入的中文。\n上下文：";
/// Between the context and the pinyin input.
pub const PROMPT_MID: &'static str = "\n当前拼音输入：";
/// After the pinyin input.
pub const PROMPT_TAIL: &'static str = "\n请直接输出最可能的5个中文候选词，每行一个，不要有其他内容：";

/// Build the prompt for the model from the committed context and the
/// current pinyin input.
pub fn build_prompt(context: &str, input: &str) -> (p: String)
    ensures
        p@ == PROMPT_HEAD@ + context@ + PROMPT_MID@ + input@ + PROMPT_TAIL@,
{
    let mut p = String::from_str(PROMPT_HEAD);
    p.append(context);
    p.append(PROMPT_MID);
    p.append(input);
    p.append(PROMPT_TAIL);
    p
}

/// A Unicode white-space character, as `char::is_whitespace` decides.
pub open spec fn is_whitespace(c: char) -> bool {
    ||| ('\u{9}' <= c && c <= '\u{d}')
    ||| c == ' '
    ||| c == '\u{85}'
    ||| c == '\u{a0}'
    ||| c == '\u{1680}'
    ||| ('\u{2000}' <= c && c <= '\u{200a}')
    ||| c == '\u{2028}'
    ||| c == '\u{2029}'
    ||| c == '\u{202f}'
    ||| c == '\u{205f}'
    ||| c == '\u{3000}'
}

fn is_whitespace_exec(c: char) -> (b: bool)
    ensures
        b == is_whitespace(c),
{
    ('\u{9}' <= c && c <= '\u{d}') || c == ' ' || c == '\u{85}' || c == '\u{a0}' || c == '\u{1680}'
        || ('\u{2000}' <= c && c <= '\u{200a}') || c == '\u{2028}' || c == '\u{2029}' || c == '\u{202f}'
        || c == '\u{205f}' || c == '\u{3000}'
}

/// `s` without leading white space.
pub open spec fn trim_start(s: Seq<char>) -> Seq<char>
    decreases s.len(),
{
    if s.len() > 0 && is_whitespace(s[0]) { trim_start(s.drop_first()) } else { s }
}

/// `s` without trailing white space.
pub open spec fn trim_end(s: Seq<char>) -> Seq<char>
    decreases s.len(),
{
    if s.len() > 0 && is_whitespace(s.last()) { trim_end(s.drop_last()) } else { s }
}

/// `s` without leading and trailing white space, as `str::trim` gives.
pub open spec fn trim(s: Seq<char>) -> Seq<char> {
    trim_end(trim_start(s))
}

proof fn lemma_trim_start_skip(s: Seq<char>, i: int)
    requires
        0 <= i <= s.len(),
        forall|j: int| 0 <= j < i ==> is_whitespace(#[trigger] s[j]),
    ensures
        trim_start(s) == trim_start(s.skip(i)),
    decreases i,
{
    if i > 0 {
        assert(s.skip(1) =~= s.drop_first());
        assert forall|j: int| 0 <= j < i - 1 implies is_whitespace(#[trigger] s.drop_first()[j]) by {
            assert(s.drop_first()[j] == s[j + 1]);
        }
        lemma_trim_start_skip(s.drop_first(), i - 1);
        assert(s.drop_first().skip(i - 1) =~= s.skip(i));
    } else {
        assert(s.skip(0) =~= s);
    }
}

proof fn lemma_trim_end_take(s: Seq<char>, k: int)
    requires
        0 <= k <= s.len(),
        forall|j: int| k <= j < s.len() ==> is_whitespace(#[trigger] s[j]),
    ensures
        trim_end(s) == trim_end(s.take(k)),
    decreases s.len() - k,
{
    if k < s.len() {
        assert forall|j: int| k <= j < s.drop_last().len() implies is_whitespace(#[trigger] s.drop_last()[j]) by {
            assert(s.drop_last()[j] == s[j]);
        }
        lemma_trim_end_take(s.drop_last(), k);
        assert(s.drop_last().take(k) =~= s.take(k));
    } else {
        assert(s.take(k) =~= s);
    }
}

/// `s` without leading and trailing white space.
pub fn trim_chars(s: &[char]) -> (r: Vec<char>)
    ensures
        r@ == trim(s@),
{
    let mut i: usize = 0;
    while i < s.len() && is_whitespace_exec(s[i])
        invariant
            i <= s.len(),
            forall|j: int| 0 <= j < i ==> is_whitespace(#[trigger] s@[j]),
        decreases s.len() - i,
    {
        i = i + 1;
    }
    proof {
        lemma_trim_start_skip(s@, i as int);
    }
    let ghost t = s@.skip(i as int);
    assert(i < s.len() ==> !is_whitespace(t[0]));
    assert(trim_start(t) == t);
    let mut k: usize = s.len();
    while k > i && is_whitespace_exec(s[k - 1])
        invariant
            i <= k <= s.len(),
            forall|j: int| k <= j < s.len() ==> is_whitespace(#[trigger] s@[j]),
        decreases k,
    {
        k = k - 1;
    }
    proof {
        assert forall|j: int| (k - i) <= j < t.len() implies is_whitespace(#[trigger] t[j]) by {
            assert(t[j] == s@[i + j]);
        }
        lemma_trim_end_take(t, (k - i) as int);
        let u = t.take((k - i) as int);
        assert(u.len() > 0 ==> u.last() == s@[k - 1]);
    }
    crate::pinyin::slice_chars(s, i, k)
}

/// Confidence of the n-th line (from 0) of a reply, in thousandths:
/// 1 - n/10, and 0 from the eleventh line on, so always within 0..=1.
pub open spec fn reply_confidence(n: int) -> int {
    if n <= 10 { 1000 - 100 * n } else { 0 }
}

/// The predictions a model reply holds: each line that is not blank,
/// trimmed, in order, with confidence `reply_confidence` of its place.
pub open spec fn spec_parse_reply(content: Seq<char>) -> Seq<PredictionView> {
    let lines = spec_lines(content).filter(|l: Seq<char>| trim(l).len() > 0);
    Seq::new(
        lines.len(),
        |n: int| PredictionView { text: trim(lines[n]), confidence_milli: reply_confidence(n), source: PredictionSource::AIModel },
    )
}

/// Every prediction read from a reply has a confidence within 0..=1 (in
/// thousandths), and confidences do not grow down the reply.
pub proof fn lemma_reply_confidence_range(content: Seq<char>)
    ensures
        forall|i: int| 0 <= i < spec_parse_reply(content).len() ==>
            0 <= #[trigger] spec_parse_reply(content)[i].confidence_milli <= 1000,
        forall|i: int, j: int| 0 <= i < j < spec_parse_reply(content).len() ==>
            #[trigger] spec_parse_reply(content)[i].confidence_milli >= #[trigger] spec_parse_reply(content)[j].confidence_milli,
{
}

/// Reads the predictions from the text of a model reply.
pub fn parse_reply(content: &str) -> (r: Vec<PredictionResult>)
    ensures
        predictions_view(r@) == spec_parse_reply(content@),
{
    let cs = chars_of(content);
    let lines = split_lines(cs.as_slice());
    let ghost lv = lines@.map_values(|p: Vec<char>| p@);
    let ghost pred = |l: Seq<char>| trim(l).len() > 0;
    let mut out: Vec<PredictionResult> = Vec::new();
    let mut i: usize = 0;
    let mut n: usize = 0;
    while i < lines.len()
        invariant
            i <= lines.len(),
            lv == lines@.map_values(|p: Vec<char>| p@),
            lv == spec_lines(content@),
            pred == (|l: Seq<char>| trim(l).len() > 0),
            n as int == out@.len(),
            n <= i,
            predictions_view(out@) == Seq::new(
                lv.take(i as int).filter(pred).len(),
                |m: int| PredictionView {
                    text: trim(lv.take(i as int).filter(pred)[m]),
                    confidence_milli: reply_confidence(m),
                    source: PredictionSource::AIModel,
                },
            ),
        decreases lines.len() - i,
    {
        proof {
            reveal_with_fuel(Seq::<_>::filter, 1);
            assert(lv.take(i + 1).drop_last() =~= lv.take(i as int));
            assert(lv[i as int] == lines@[i as int]@);
        }
        let t = trim_chars(lines[i].as_slice());
        if t.len() > 0 {
            let ghost before = predictions_view(out@);
            let text = string_from_chars(t.as_slice());
            let conf: i64 = if n <= 10 { 1000 - 100 * (n as i64) } else { 0 };
            let ghost pv = PredictionView { text: t@, confidence_milli: conf as int, source: PredictionSource::AIModel };
            out.push(PredictionResult { text, confidence_milli: conf, source: PredictionSource::AIModel });
            assert(predictions_view(out@) =~= before.push(pv));
            n = n + 1;
            proof {
                reveal_with_fuel(Seq::<_>::filter, 1);
                let f = lv.take(i + 1 as int).filter(pred);
                assert(f == lv.take(i as int).filter(pred).push(lv[i as int]));
                assert(predictions_view(out@) =~= Seq::new(
                    f.len(),
                    |m: int| PredictionView {
                        text: trim(f[m]),
                        confidence_milli: reply_confidence(m),
                        source: PredictionSource::AIModel,
                    },
                ));
            }
        }
        i = i + 1;
    }
    assert(lv.take(lines.len() as int) =~= lv);
    out
}

// ---------------------------------------------------------------------
// Prediction cache
// ---------------------------------------------------------------------

/// The cache key of a request: `context|input`.
pub open spec fn spec_cache_key(context: Seq<char>, input: Seq<char>) -> Seq<char> {
    context + seq!['|'] + input
}

/// The cache key of a request: `context|input`.
pub fn cache_key(context: &str, input: &str) -> (k: String)
    ensures
        k@ == spec_cache_key(context@, input@),
{
    let mut k = String::from_str(context);
    push_char(&mut k, '|');
    k.append(input);
    k
}

/// A cache entry: the key and the predictions stored for it.
pub type CacheView = Seq<(Seq<char>, Seq<PredictionView>)>;

/// The view of the cache entries.
pub open spec fn cache_view(v: Seq<(String, Vec<PredictionResult>)>) -> CacheView {
    v.map_values(|e: (String, Vec<PredictionResult>)| (e.0@, predictions_view(e.1@)))
}

/// The predicate "entry has key `k`".
pub open spec fn cache_has_key(k: Seq<char>) -> spec_fn((Seq<char>, Seq<PredictionView>)) -> bool {
    |e: (Seq<char>, Seq<PredictionView>)| e.0 == k
}

/// The predictions stored for `k`, if any.
pub open spec fn cache_get(c: CacheView, k: Seq<char>) -> Option<Seq<PredictionView>> {
    let i = crate::text::find_first(c, cache_has_key(k));
    if i < 0 { None } else { Some(c[i].1) }
}

/// Stores `v` under `k`, replacing what was stored under `k`.
pub open spec fn cache_put(c: CacheView, k: Seq<char>, v: Seq<PredictionView>) -> CacheView {
    let i = crate::text::find_first(c, cache_has_key(k));
    if i < 0 { c.push((k, v)) } else { c.update(i, (k, v)) }
}

/// What storing a reply does: nothing when caching is off; otherwise,
/// when the cache is full, the oldest entry is dropped first.
pub open spec fn spec_cache_store(c: CacheView, enabled: bool, capacity: nat, k: Seq<char>, v: Seq<PredictionView>) -> CacheView {
    if !enabled {
        c
    } else if c.len() >= capacity && c.len() > 0 {
        cache_put(c.drop_first(), k, v)
    } else {
        cache_put(c, k, v)
    }
}

/// Cache of model replies, oldest entry first.
pub struct PredictionCache {
    entries: Vec<(String, Vec<PredictionResult>)>,
}

impl PredictionCache {
    /// The cached entries, oldest first.
    pub closed spec fn entries(&self) -> CacheView {
        cache_view(self.entries@)
    }

    pub fn new() -> (c: PredictionCache)
        ensures
            c.entries() == Seq::<(Seq<char>, Seq<PredictionView>)>::empty(),
    {
        let c = PredictionCache { entries: Vec::new() };
        assert(c.entries() =~= Seq::<(Seq<char>, Seq<PredictionView>)>::empty());
        c
    }

    /// Number of cached replies.
    pub fn len(&self) -> (n: usize)
        ensures
            n == self.entries().len(),
    {
        self.entries.len()
    }

    fn find(&self, key: &String) -> (r: Option<usize>)
        ensures
            match r {
                Some(i) => i < self.entries().len() && crate::text::find_first(self.entries(), cache_has_key(key@)) == i,
                None => crate::text::find_first(self.entries(), cache_has_key(key@)) < 0,
            },
    {
        let ghost cv = self.entries();
        let mut i: usize = 0;
        while i < self.entries.len()
            invariant
                i <= self.entries.len(),
                cv == self.entries(),
                forall|j: int| 0 <= j < i ==> !cache_has_key(key@)(#[trigger] cv[j]),
            decreases self.entries.len() - i,
        {
            assert(cv[i as int].0 == self.entries@[i as int].0@);
            if self.entries[i].0 == *key {
                proof {
                    crate::text::lemma_find_first_at(cv, cache_has_key(key@), i as int);
                }
                return Some(i);
            }
            i = i + 1;
        }
        proof {
            crate::text::lemma_find_first_none(cv, cache_has_key(key@));
        }
        None
    }

    /// The predictions cached for `key`, if any.
    pub fn get(&self, key: &String) -> (r: Option<Vec<PredictionResult>>)
        ensures
            match r {
                Some(v) => cache_get(self.entries(), key@) == Some(predictions_view(v@)),
                None => cache_get(self.entries(), key@) is None,
            },
    {
        match self.find(key) {
            Some(i) => {
                assert(self.entries()[i as int].1 == predictions_view(self.entries@[i as int].1@));
                Some(duplicate_predictions(&self.entries[i].1))
            }
            None => None,
        }
    }

    /// Stores a reply (see `spec_cache_store`).
    pub fn store(&mut self, enabled: bool, capacity: usize, key: String, value: Vec<PredictionResult>)
        ensures
            final(self).entries() == spec_cache_store(old(self).entries(), enabled, capacity as nat, key@, predictions_view(value@)),
    {
        if !enabled {
            return;
        }
        if self.entries.len() >= capacity && self.entries.len() > 0 {
            let ghost before = self.entries();
            self.entries.remove(0);
            assert(self.entries() =~= before.drop_first());
        }
        let ghost c = self.entries();
        let ghost kv = key@;
        let ghost vv = predictions_view(value@);
        match self.find(&key) {
            Some(i) => {
                self.entries.set(i, (key, value));
                assert(self.entries() =~= c.update(i as int, (kv, vv)));
            }
            None => {
                self.entries.push((key, value));
                assert(self.entries() =~= c.push((kv, vv)));
            }
        }
    }
}

/// A reply stored in an enabled cache with room for at least one entry
/// is found again under its key.
pub proof fn lemma_cache_store_get(c: CacheView, capacity: nat, k: Seq<char>, v: Seq<PredictionView>)
    requires
        capacity >= 1,
    ensures
        cache_get(spec_cache_store(c, true, capacity, k, v), k) == Some(v),
{
    let c1 = if c.len() >= capacity && c.len() > 0 { c.drop_first() } else { c };
    let pred = cache_has_key(k);
    crate::text::lemma_find_first(c1, pred);
    let i = crate::text::find_first(c1, pred);
    let r = cache_put(c1, k, v);
    if i < 0 {
        crate::text::lemma_find_first_at(r, pred, c1.len() as int);
    } else {
        assert forall|j: int| 0 <= j < i implies !pred(#[trigger] r[j]) by {
            assert(r[j] == c1[j]);
        }
        crate::text::lemma_find_first_at(r, pred, i);
    }
}

/// An enabled cache never holds more entries than its capacity (when it
/// did not before).
pub proof fn lemma_cache_store_bounded(c: CacheView, capacity: nat, k: Seq<char>, v: Seq<PredictionView>)
    requires
        capacity >= 1,
        c.len() <= capacity,
    ensures
        spec_cache_store(c, true, capacity, k, v).len() <= capacity,
{
    let c1 = if c.len() >= capacity && c.len() > 0 { c.drop_first() } else { c };
    crate::text::lemma_find_first(c1, cache_has_key(k));
}

/// What a prediction request needs: the cached predictions, or a request
/// to the model with the cache key to store the reply under and the
/// prompt to send.
pub enum CacheStep {
    /// The predictions cached for the request.
    Cached(Vec<PredictionResult>),
    /// Nothing is cached: ask the model with `prompt`, then store the
    /// reply under `key`.
    Ask { key: String, prompt: String },
}

/// The first step of a prediction request for `context` and `input`: the
/// cached predictions when the cache holds the request's key, otherwise
/// the key and the prompt to ask the model with.
pub fn prediction_step(cache: &PredictionCache, context: &str, input: &str) -> (r: CacheStep)
    ensures
        match r {
            CacheStep::Cached(v) => cache_get(cache.entries(), spec_cache_key(context@, input@)) == Some(predictions_view(v@)),
            CacheStep::Ask { key, prompt } => {
                &&& cache_get(cache.entries(), spec_cache_key(context@, input@)) is None
                &&& key@ == spec_cache_key(context@, input@)
                &&& prompt@ == PROMPT_HEAD@ + context@ + PROMPT_MID@ + input@ + PROMPT_TAIL@
            },
        },
{
    let key = cache_key(context, input);
    match cache.get(&key) {
        Some(v) => CacheStep::Cached(v),
        None => CacheStep::Ask { key, prompt: build_prompt(context, input) },
    }
}

/// The second step of a prediction request, once the model has replied
/// with `content`: the predictions the reply holds, which are also stored
/// in the cache under `key` (see `spec_cache_store`).
pub fn record_reply(cache: &mut PredictionCache, enabled: bool, capacity: usize, key: String, content: &str) -> (r: Vec<PredictionResult>)
    ensures
        predictions_view(r@) == spec_parse_reply(content@),
        final(cache).entries() == spec_cache_store(old(cache).entries(), enabled, capacity as nat, key@, spec_parse_reply(content@)),
{
    let results = parse_reply(content);
    cache.store(enabled, capacity, key, duplicate_predictions(&results));
    results
}

} // verus!
