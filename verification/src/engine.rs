//! Input method engine: turns key events into preedit text, candidate
//! lists and committed text, per input context.
//!
//! The AI backend is asked for predictions only where a key leads to a
//! new candidate list. `apply_key` takes the backend's answer, and the
//! clock reading that stamps learned words, as arguments; `handle_key`
//! asks the backend and the clock and then does what `apply_key` does.

use vstd::prelude::*;
use vstd::string::StringExecFns;
use std::collections::HashMap;
pub use crate::candidates::{Candidate, InputState};
use crate::candidates::{
    add_ai, add_fuzzy, builtin_cands, cands_view, lemma_sort_by_score, score_sorted, dict_cands, initial_cands, phrase_cands, sort_by_score, take_at_most,
    CandView, StateView,
};
use crate::candidates::{
    default_state, lookup_key, push_ai_cands, push_builtin_cands, push_dict_cands, push_fuzzy_cands, push_initial_cands,
    push_phrase_cands, sort_cands_by_score,
};
use crate::config::{Config, InputConfig};
use crate::dictionary::{spec_lookup, spec_update_frequency, unix_time_now, Dictionary, TableView};
use crate::ffi::{spec_is_letter, spec_is_number, spec_is_printable, spec_keysym_from_raw, IMReturnValue, KeyState, KeySym};
use crate::model::{predictions_view, ModelBackend, NoOpModelClient, PredictionResult, PredictionView};
use crate::pinyin::{
    builtin_chars, builtin_chars_in, builtin_rows, builtin_syllables, fuzzy_matches, rows_view, segment, seqs_view, FuzzyPinyinMatcher,
    PinyinParser,
};
use crate::text::{chars_of, string_from_chars};
use crate::pinyin::slice_chars;
use crate::candidates::concat_chars;

verus! {

// ---------------------------------------------------------------------
// Candidate list of a preedit
// ---------------------------------------------------------------------

/// An ASCII letter.
pub open spec fn is_ascii_alpha(c: char) -> bool {
    ('a' <= c <= 'z') || ('A' <= c <= 'Z')
}

/// Every syllable is a single letter: the input is a run of initials.
pub open spec fn is_initial_input(syls: Seq<Seq<char>>) -> bool {
    forall|k: int| 0 <= k < syls.len() ==> (#[trigger] syls[k]).len() == 1 && is_ascii_alpha(syls[k][0])
}

/// The candidates of the syllables of a preedit before AI predictions:
/// initial-letter combinations for a run of two or more initials; for a
/// single syllable its dictionary entries (or, when there are none, its
/// built-in characters, see `builtin_chars`) followed by fuzzy variants when fuzzy pinyin is
/// on; phrase candidates otherwise.
pub open spec fn base_cands(cfg: InputConfig, user: TableView, system: TableView, syls: Seq<Seq<char>>) -> Seq<CandView> {
    if is_initial_input(syls) && syls.len() > 1 {
        initial_cands(Seq::empty(), syls, user, system)
    } else if syls.len() == 1 {
        let d = dict_cands(spec_lookup(user, system, syls[0]));
        let c = if d.len() == 0 { builtin_cands(syls[0], builtin_chars(builtin_rows(), syls[0])) } else { d };
        if cfg.fuzzy_pinyin { add_fuzzy(c, syls[0], fuzzy_matches(syls[0]), user, system) } else { c }
    } else {
        phrase_cands(Seq::empty(), syls, user, system)
    }
}

/// The backend is asked for predictions of this preedit: phrase
/// prediction is on and the preedit is long enough.
pub open spec fn wants_ai(cfg: InputConfig, preedit: Seq<char>) -> bool {
    cfg.enable_phrase_prediction && preedit.len() >= cfg.min_ai_input_length
}

/// The candidate list of a preedit: none for an empty preedit; otherwise
/// the base candidates, then the predictions when the backend was asked
/// and is available, sorted by descending score (ties in order) and cut
/// to the configured number.
pub open spec fn spec_update_cands(
    cfg: InputConfig,
    user: TableView,
    system: TableView,
    preedit: Seq<char>,
    avail: bool,
    preds: Seq<PredictionView>,
) -> Seq<CandView> {
    if preedit.len() == 0 {
        Seq::empty()
    } else {
        take_at_most(sort_by_score(all_cands(cfg, user, system, preedit, avail, preds)), cfg.num_candidates as int)
    }
}

/// Every candidate generated for a preedit, before sorting and cutting:
/// the base candidates, then the predictions when the backend was asked
/// and is available.
pub open spec fn all_cands(
    cfg: InputConfig,
    user: TableView,
    system: TableView,
    preedit: Seq<char>,
    avail: bool,
    preds: Seq<PredictionView>,
) -> Seq<CandView> {
    let base = base_cands(cfg, user, system, segment(builtin_syllables(), preedit));
    if wants_ai(cfg, preedit) && avail { add_ai(base, preedit, preds) } else { base }
}

/// A state with a new candidate list, on its first page, first candidate
/// selected.
pub open spec fn with_cands(s: StateView, cs: Seq<CandView>) -> StateView {
    StateView { candidates: cs, current_page: 0, selected_index: 0, ..s }
}

// ---------------------------------------------------------------------
// Keys
// ---------------------------------------------------------------------

/// What a pressed key asks of the engine.
#[derive(Debug, Clone, Copy, PartialEq, Eq, Structural)]
pub enum KeyAction {
    /// Delete the last preedit letter.
    Backspace,
    /// Commit the raw preedit.
    Commit,
    /// Drop the preedit.
    Cancel,
    /// Commit the selected candidate.
    Select,
    /// Previous candidate page.
    PageUp,
    /// Next candidate page.
    PageDown,
    /// Previous candidate.
    Previous,
    /// Next candidate.
    Next,
    /// A letter for the preedit, lower-cased.
    Letter(char),
    /// A digit: pick a candidate of the current page.
    Digit(u32),
    /// Another printable character.
    Punctuation,
    /// Any other key.
    Other,
}

/// The letter a letter keysym types, lower-cased.
pub open spec fn lower_letter(raw: u32) -> char {
    if 0x41 <= raw <= 0x5a { (raw + 32) as char } else { raw as char }
}

/// What a key asks: the named keys first (backspace, return, escape,
/// space, minus, equal, plus, the arrows and the page keys: minus, up
/// and page up turn to the previous page, equal, plus, down and page
/// down to the next), then letters, digits and other printable
/// characters.
pub open spec fn spec_classify_key(raw: u32) -> KeyAction {
    let k = spec_keysym_from_raw(raw);
    if k == KeySym::BackSpace {
        KeyAction::Backspace
    } else if k == KeySym::Return {
        KeyAction::Commit
    } else if k == KeySym::Escape {
        KeyAction::Cancel
    } else if k == KeySym::Space {
        KeyAction::Select
    } else if k == KeySym::Minus || k == KeySym::Up || k == KeySym::PageUp {
        KeyAction::PageUp
    } else if k == KeySym::Equal || k == KeySym::Plus || k == KeySym::Down || k == KeySym::PageDown {
        KeyAction::PageDown
    } else if k == KeySym::Left {
        KeyAction::Previous
    } else if k == KeySym::Right {
        KeyAction::Next
    } else if spec_is_letter(raw) {
        KeyAction::Letter(lower_letter(raw))
    } else if spec_is_number(raw) {
        KeyAction::Digit((raw - 0x30) as u32)
    } else if spec_is_printable(raw) {
        KeyAction::Punctuation
    } else {
        KeyAction::Other
    }
}

/// What a key asks (see `spec_classify_key`).
pub fn classify_key(raw: u32) -> (a: KeyAction)
    ensures
        a == spec_classify_key(raw),
{
    let k = KeySym::from_raw(raw);
    match k {
        KeySym::BackSpace => KeyAction::Backspace,
        KeySym::Return => KeyAction::Commit,
        KeySym::Escape => KeyAction::Cancel,
        KeySym::Space => KeyAction::Select,
        KeySym::Minus | KeySym::Up | KeySym::PageUp => KeyAction::PageUp,
        KeySym::Equal | KeySym::Plus | KeySym::Down | KeySym::PageDown => KeyAction::PageDown,
        KeySym::Left => KeyAction::Previous,
        KeySym::Right => KeyAction::Next,
        _ => {
            if k.is_letter(raw) {
                let lower: u32 = if raw <= 0x5a { raw + 32 } else { raw };
                KeyAction::Letter(crate::text::char_of_ascii(lower))
            } else if k.is_number(raw) {
                KeyAction::Digit(raw - 0x30)
            } else if k.is_printable(raw) {
                KeyAction::Punctuation
            } else {
                KeyAction::Other
            }
        },
    }
}

/// The modifier bits that make the engine pass a key on: control (bit
/// 1), alt (bit 2) or super (bit 3) is set.
pub open spec fn has_command_modifier(mods: u32) -> bool {
    (mods / 2) % 2 == 1 || (mods / 4) % 2 == 1 || (mods / 8) % 2 == 1
}

/// Whether control, alt or super is held (see `has_command_modifier`).
fn command_modifier(mods: u32) -> (b: bool)
    ensures
        b == has_command_modifier(mods),
{
    let key_state = KeyState(mods);
    let b = key_state.has_ctrl() || key_state.has_alt() || key_state.has_super();
    assert(((mods & 2u32) != 0) == ((mods / 2) % 2 == 1)) by (bit_vector);
    assert(((mods & 4u32) != 0) == ((mods / 4) % 2 == 1)) by (bit_vector);
    assert(((mods & 8u32) != 0) == ((mods / 8) % 2 == 1)) by (bit_vector);
    b
}

// ---------------------------------------------------------------------
// The effect of one key
// ---------------------------------------------------------------------

/// What key handling reads besides what it changes: the input settings,
/// the system table and whether commits are learned.
pub struct KeyEnv {
    pub cfg: InputConfig,
    pub system: TableView,
    pub learning: bool,
}

/// What one key can change: the state of its input context, the user
/// table, the commit counter and the request to save the user table.
pub struct KeyWorld {
    pub state: StateView,
    pub user: TableView,
    pub counter: int,
    pub save: bool,
}

/// Most characters of committed context kept for the backend.
pub const MAX_CONTEXT_CHARS: usize = 100;

/// Commits after which the user table is saved.
pub const COMMITS_PER_SAVE: usize = 5;

/// Committing a candidate: its text becomes the commit text and is added
/// to the context (cut to its first 100 characters), the preedit and the
/// candidates are dropped, the word is learned under the candidate's
/// pinyin, and every fifth commit asks for the user table to be saved.
pub open spec fn commit_world(env: KeyEnv, w: KeyWorld, c: CandView, now: u64) -> KeyWorld {
    let s = w.state;
    KeyWorld {
        state: StateView {
            commit_text: c.text,
            context: take_at_most(s.context + c.text, MAX_CONTEXT_CHARS as int),
            preedit: Seq::empty(),
            candidates: Seq::empty(),
            is_active: false,
            ..s
        },
        user: spec_update_frequency(w.user, env.learning, c.pinyin, c.text, now),
        counter: if w.counter + 1 >= COMMITS_PER_SAVE { 0 } else { w.counter + 1 },
        save: w.save || w.counter + 1 >= COMMITS_PER_SAVE,
    }
}

/// The state with another state, the rest unchanged.
pub open spec fn with_state(w: KeyWorld, s: StateView) -> KeyWorld {
    KeyWorld { state: s, ..w }
}

/// A letter: appended to the preedit unless it is full, and the
/// candidates recomputed. Always consumed.
pub open spec fn letter_step(env: KeyEnv, w: KeyWorld, c: char, avail: bool, preds: Seq<PredictionView>) -> (KeyWorld, IMReturnValue) {
    let s = w.state;
    if s.preedit.len() >= env.cfg.max_preedit_length {
        (w, IMReturnValue::Consume)
    } else {
        let p = s.preedit.push(c);
        let s1 = StateView { preedit: p, cursor_pos: p.len() as usize, is_active: true, ..s };
        (with_state(w, with_cands(s1, spec_update_cands(env.cfg, w.user, env.system, p, avail, preds))), IMReturnValue::Consume)
    }
}

/// A digit `n`: keys 1 to 9 commit the n-th candidate (from 1) of the
/// current page when there is one; key 0 selects nothing. A key that
/// selects nothing is passed on and changes nothing.
pub open spec fn digit_step(env: KeyEnv, w: KeyWorld, n: int, now: u64) -> (KeyWorld, IMReturnValue) {
    let s = w.state;
    let k = s.current_page * env.cfg.page_size + n - 1;
    if n < 1 || !s.is_active || s.candidates.len() == 0 {
        (w, IMReturnValue::Forward)
    } else if 0 <= k < s.candidates.len() {
        (commit_world(env, w, s.candidates[k], now), IMReturnValue::Consume)
    } else {
        (w, IMReturnValue::Forward)
    }
}

/// Punctuation: commits the first candidate first when auto-commit is on
/// and there is a preedit. Always passed on.
pub open spec fn punctuation_step(env: KeyEnv, w: KeyWorld, now: u64) -> (KeyWorld, IMReturnValue) {
    let s = w.state;
    if s.is_active && s.preedit.len() > 0 && env.cfg.auto_commit_on_punctuation && s.candidates.len() > 0 {
        (commit_world(env, w, s.candidates[0], now), IMReturnValue::Forward)
    } else {
        (w, IMReturnValue::Forward)
    }
}

/// Backspace: drops the last preedit letter and recomputes the
/// candidates, or ends the input when no letter is left.
pub open spec fn backspace_step(env: KeyEnv, w: KeyWorld, avail: bool, preds: Seq<PredictionView>) -> (KeyWorld, IMReturnValue) {
    let s = w.state;
    if !s.is_active || s.preedit.len() == 0 {
        (w, IMReturnValue::Forward)
    } else {
        let p = s.preedit.drop_last();
        let s1 = StateView { preedit: p, cursor_pos: p.len() as usize, ..s };
        if p.len() == 0 {
            (with_state(w, StateView { is_active: false, candidates: Seq::empty(), ..s1 }), IMReturnValue::Consume)
        } else {
            (with_state(w, with_cands(s1, spec_update_cands(env.cfg, w.user, env.system, p, avail, preds))), IMReturnValue::Consume)
        }
    }
}

/// Return: commits the raw preedit (not learned, context not cut).
pub open spec fn return_step(w: KeyWorld) -> (KeyWorld, IMReturnValue) {
    let s = w.state;
    if !s.is_active || s.preedit.len() == 0 {
        (w, IMReturnValue::Forward)
    } else {
        (with_state(w, StateView {
            commit_text: s.preedit,
            context: s.context + s.preedit,
            preedit: Seq::empty(),
            candidates: Seq::empty(),
            is_active: false,
            ..s
        }), IMReturnValue::Consume)
    }
}

/// Escape: drops the preedit and the candidates.
pub open spec fn escape_step(w: KeyWorld) -> (KeyWorld, IMReturnValue) {
    let s = w.state;
    if !s.is_active {
        (w, IMReturnValue::Forward)
    } else {
        (with_state(w, StateView { preedit: Seq::empty(), candidates: Seq::empty(), is_active: false, ..s }), IMReturnValue::Consume)
    }
}

/// Space: commits the selected candidate, or the first when the
/// selection is past the list.
pub open spec fn space_step(env: KeyEnv, w: KeyWorld, now: u64) -> (KeyWorld, IMReturnValue) {
    let s = w.state;
    let k = s.current_page * env.cfg.page_size + s.selected_index;
    if !s.is_active || s.preedit.len() == 0 {
        (w, IMReturnValue::Forward)
    } else if 0 <= k < s.candidates.len() {
        (commit_world(env, w, s.candidates[k], now), IMReturnValue::Consume)
    } else if s.candidates.len() > 0 {
        (commit_world(env, w, s.candidates[0], now), IMReturnValue::Consume)
    } else {
        (w, IMReturnValue::Consume)
    }
}

/// The candidates are navigable: input is active and there are some.
pub open spec fn navigable(s: StateView) -> bool {
    s.is_active && s.candidates.len() > 0
}

/// The number of candidates on page `page` (fewer on the last page).
pub open spec fn page_len(len: int, page: int, ps: int) -> int {
    let rest = if len > page * ps { len - page * ps } else { 0 };
    if rest < ps { rest } else { ps }
}

/// The last page of `len` candidates, `ps` to a page.
pub open spec fn last_page(len: int, ps: int) -> int {
    (len - 1) / ps
}

/// Page up: the previous page, first candidate selected.
pub open spec fn page_up_step(w: KeyWorld) -> (KeyWorld, IMReturnValue) {
    let s = w.state;
    if !navigable(s) {
        (w, IMReturnValue::Forward)
    } else if s.current_page > 0 {
        (with_state(w, StateView { current_page: (s.current_page - 1) as usize, selected_index: 0, ..s }), IMReturnValue::Consume)
    } else {
        (w, IMReturnValue::Consume)
    }
}

/// Page down: the next page, first candidate selected, unless this is
/// the last page.
pub open spec fn page_down_step(env: KeyEnv, w: KeyWorld) -> (KeyWorld, IMReturnValue) {
    let s = w.state;
    if !navigable(s) {
        (w, IMReturnValue::Forward)
    } else if s.current_page < last_page(s.candidates.len() as int, env.cfg.page_size as int) {
        (with_state(w, StateView { current_page: (s.current_page + 1) as usize, selected_index: 0, ..s }), IMReturnValue::Consume)
    } else {
        (w, IMReturnValue::Consume)
    }
}

/// Left: the previous candidate, or the last of the previous page.
pub open spec fn previous_step(env: KeyEnv, w: KeyWorld) -> (KeyWorld, IMReturnValue) {
    let s = w.state;
    let ps = env.cfg.page_size as int;
    if !navigable(s) {
        (w, IMReturnValue::Forward)
    } else if s.selected_index > 0 {
        (with_state(w, StateView { selected_index: (s.selected_index - 1) as usize, ..s }), IMReturnValue::Consume)
    } else if s.current_page > 0 {
        let page = s.current_page - 1;
        (with_state(w, StateView {
            current_page: page as usize,
            selected_index: (page_len(s.candidates.len() as int, page, ps) - 1) as usize,
            ..s
        }), IMReturnValue::Consume)
    } else {
        (w, IMReturnValue::Consume)
    }
}

/// Right: the next candidate of the page when there is one, else the
/// first of the next page. A page of no candidates counts as endless, as
/// a release build computes it.
pub open spec fn next_step(env: KeyEnv, w: KeyWorld) -> (KeyWorld, IMReturnValue) {
    let s = w.state;
    let ps = env.cfg.page_size as int;
    let len = s.candidates.len() as int;
    let plen = page_len(len, s.current_page as int, ps);
    if !navigable(s) {
        (w, IMReturnValue::Forward)
    } else if (plen == 0 && s.selected_index < usize::MAX) || s.selected_index + 1 < plen {
        if s.current_page * ps + s.selected_index + 1 < len {
            (with_state(w, StateView { selected_index: (s.selected_index + 1) as usize, ..s }), IMReturnValue::Consume)
        } else {
            (w, IMReturnValue::Consume)
        }
    } else if s.current_page < last_page(len, ps) {
        (with_state(w, StateView { current_page: (s.current_page + 1) as usize, selected_index: 0, ..s }), IMReturnValue::Consume)
    } else {
        (w, IMReturnValue::Consume)
    }
}

/// The effect of a key action (see `key_step`).
pub open spec fn action_step(env: KeyEnv, w: KeyWorld, a: KeyAction, avail: bool, preds: Seq<PredictionView>, now: u64) -> (KeyWorld, IMReturnValue) {
    match a {
        KeyAction::Backspace => backspace_step(env, w, avail, preds),
        KeyAction::Commit => return_step(w),
        KeyAction::Cancel => escape_step(w),
        KeyAction::Select => space_step(env, w, now),
        KeyAction::PageUp => page_up_step(w),
        KeyAction::PageDown => page_down_step(env, w),
        KeyAction::Previous => previous_step(env, w),
        KeyAction::Next => next_step(env, w),
        KeyAction::Letter(c) => letter_step(env, w, c, avail, preds),
        KeyAction::Digit(n) => digit_step(env, w, n as int, now),
        KeyAction::Punctuation => punctuation_step(env, w, now),
        KeyAction::Other => (w, IMReturnValue::Forward),
    }
}

/// The effect of a pressed key without command modifiers: the new world
/// and whether the key is consumed or passed on. `avail` and `preds` are
/// the backend's availability and predictions, read only where a new
/// candidate list asks for them; `now` stamps a learned word.
pub open spec fn key_step(env: KeyEnv, w: KeyWorld, raw: u32, avail: bool, preds: Seq<PredictionView>, now: u64) -> (KeyWorld, IMReturnValue) {
    action_step(env, w, spec_classify_key(raw), avail, preds, now)
}

/// The backend request a key leads to: the committed context and the
/// new preedit, where the key makes a new candidate list that asks for
/// predictions; `None` otherwise.
pub open spec fn key_query(cfg: InputConfig, s: StateView, raw: u32, mods: u32, is_release: bool) -> Option<(Seq<char>, Seq<char>)> {
    if is_release || has_command_modifier(mods) {
        None
    } else {
        match spec_classify_key(raw) {
            KeyAction::Backspace => {
                let p = s.preedit.drop_last();
                if s.is_active && s.preedit.len() > 1 && wants_ai(cfg, p) { Some((s.context, p)) } else { None }
            },
            KeyAction::Letter(c) => {
                let p = s.preedit.push(c);
                if s.preedit.len() < cfg.max_preedit_length && wants_ai(cfg, p) { Some((s.context, p)) } else { None }
            },
            _ => None,
        }
    }
}

/// The key would divide by a page size of zero: a page-down key while
/// candidates are shown and pages are empty.
pub open spec fn pages_undefined(cfg: InputConfig, s: StateView, raw: u32, mods: u32, is_release: bool) -> bool {
    &&& !is_release
    &&& !has_command_modifier(mods)
    &&& spec_classify_key(raw) == KeyAction::PageDown
    &&& navigable(s)
    &&& cfg.page_size == 0
}

/// The invariant of an input context's state under page size `ps`: the
/// preedit is lower-case ASCII letters; input is active exactly when
/// there is a preedit; without input there are no candidates; an empty
/// list is on its first page; and the selection points into the list and
/// into its page.
pub open spec fn state_inv(s: StateView, ps: int) -> bool {
    &&& forall|k: int| 0 <= k < s.preedit.len() ==> 'a' <= #[trigger] s.preedit[k] <= 'z'
    &&& s.is_active == (s.preedit.len() > 0)
    &&& !s.is_active ==> s.candidates.len() == 0
    &&& s.candidates.len() == 0 && s.is_active ==> s.current_page == 0 && s.selected_index == 0
    &&& s.candidates.len() > 0 ==> s.current_page * ps + s.selected_index < s.candidates.len()
    &&& s.candidates.len() > 0 && ps > 0 ==> s.selected_index < ps
    &&& ps == 0 ==> s.current_page == 0
    &&& s.candidates.len() <= usize::MAX
}

/// The candidate list of a preedit is ordered by non-increasing score,
/// holds at most the configured number of candidates, and is empty for
/// an empty preedit. For a non-empty preedit it is the first candidates
/// of all generated ones sorted by score, so no candidate that was cut
/// off scores above a kept one.
pub proof fn lemma_update_cands_sorted(
    cfg: InputConfig,
    user: TableView,
    system: TableView,
    preedit: Seq<char>,
    avail: bool,
    preds: Seq<PredictionView>,
)
    ensures
        score_sorted(spec_update_cands(cfg, user, system, preedit, avail, preds)),
        spec_update_cands(cfg, user, system, preedit, avail, preds).len() <= cfg.num_candidates,
        preedit.len() == 0 ==> spec_update_cands(cfg, user, system, preedit, avail, preds).len() == 0,
        preedit.len() > 0 ==> {
            let sorted = sort_by_score(all_cands(cfg, user, system, preedit, avail, preds));
            let kept = spec_update_cands(cfg, user, system, preedit, avail, preds);
            &&& sorted.to_multiset() == all_cands(cfg, user, system, preedit, avail, preds).to_multiset()
            &&& kept == sorted.take(kept.len() as int)
            &&& forall|i: int, j: int| 0 <= i < kept.len() <= j < sorted.len() ==> #[trigger] kept[i].score >= #[trigger] sorted[j].score
        },
{
    if preedit.len() > 0 {
        let all = all_cands(cfg, user, system, preedit, avail, preds);
        lemma_sort_by_score(all);
        let sorted = sort_by_score(all);
        let kept = spec_update_cands(cfg, user, system, preedit, avail, preds);
        assert(kept =~= sorted.take(kept.len() as int));
        assert forall|i: int, j: int| 0 <= i < kept.len() <= j < sorted.len() implies #[trigger] kept[i].score >= #[trigger] sorted[j].score by {
            assert(kept[i] == sorted[i]);
        }
    }
}

/// Backspace undoes a letter: typing a letter into a preedit that has
/// room and then pressing backspace gives back the preedit with the
/// cursor at its end, input active exactly when it is not empty, the
/// candidates of that preedit on their first page with the first
/// selected, and the context, the text to commit, the user table and the
/// counter unchanged.
pub proof fn lemma_backspace_undoes_letter(
    env: KeyEnv,
    w: KeyWorld,
    raw: u32,
    avail1: bool,
    preds1: Seq<PredictionView>,
    avail2: bool,
    preds2: Seq<PredictionView>,
    now1: u64,
    now2: u64,
)
    requires
        spec_is_letter(raw),
        w.state.preedit.len() < env.cfg.max_preedit_length,
        w.state.is_active == (w.state.preedit.len() > 0),
    ensures
        ({
            let (w1, r1) = key_step(env, w, raw, avail1, preds1, now1);
            let (w2, r2) = key_step(env, w1, 0xff08, avail2, preds2, now2);
            let p = w.state.preedit;
            &&& r1 == IMReturnValue::Consume
            &&& r2 == IMReturnValue::Consume
            &&& w2.state.preedit == p
            &&& w2.state.cursor_pos == p.len()
            &&& w2.state.is_active == (p.len() > 0)
            &&& w2.state.current_page == 0
            &&& w2.state.selected_index == 0
            &&& p.len() == 0 ==> w2.state.candidates.len() == 0
            &&& p.len() > 0 ==> w2.state.candidates == spec_update_cands(env.cfg, w.user, env.system, p, avail2, preds2)
            &&& w2.state.context == w.state.context
            &&& w2.state.commit_text == w.state.commit_text
            &&& w2.user == w.user
            &&& w2.counter == w.counter
            &&& w2.save == w.save
        }),
{
    assert(spec_classify_key(0xff08) == KeyAction::Backspace);
    let c = lower_letter(raw);
    assert(w.state.preedit.push(c).drop_last() =~= w.state.preedit);
}

/// The engine asks the backend exactly when the answer matters: for a
/// key that asks no prediction (`key_query` is `None`), the effect of
/// the key is the same whatever the backend would have answered.
pub proof fn lemma_unasked_answer_unused(
    env: KeyEnv,
    w: KeyWorld,
    raw: u32,
    mods: u32,
    avail1: bool,
    preds1: Seq<PredictionView>,
    avail2: bool,
    preds2: Seq<PredictionView>,
    now: u64,
)
    requires
        key_query(env.cfg, w.state, raw, mods, false) is None,
        !has_command_modifier(mods),
    ensures
        key_step(env, w, raw, avail1, preds1, now) == key_step(env, w, raw, avail2, preds2, now),
{
}

/// Selecting a shown candidate with digit `n` commits it: its text is the
/// text to commit, the preedit and the candidates are gone, input ends,
/// and the key is consumed.
pub proof fn lemma_digit_commits_candidate(env: KeyEnv, w: KeyWorld, n: u32, now: u64)
    requires
        navigable(w.state),
        1 <= n <= 9,
        w.state.current_page * env.cfg.page_size + n - 1 < w.state.candidates.len(),
    ensures
        ({
            let k = w.state.current_page * env.cfg.page_size + n - 1;
            let (w2, r) = key_step(env, w, (0x30 + n) as u32, true, Seq::empty(), now);
            &&& r == IMReturnValue::Consume
            &&& w2.state.commit_text == w.state.candidates[k].text
            &&& w2.state.preedit.len() == 0
            &&& w2.state.candidates.len() == 0
            &&& !w2.state.is_active
        }),
{
    assert(spec_classify_key((0x30 + n) as u32) == KeyAction::Digit(n));
}

/// A letter key types a lower-case ASCII letter.
pub proof fn lemma_lower_letter(raw: u32)
    requires
        spec_is_letter(raw),
    ensures
        'a' <= lower_letter(raw) <= 'z',
{
}

/// Whatever key is pressed, with whatever the backend answers, the state
/// of the context keeps its invariant: letters only in the preedit,
/// input active exactly while there is a preedit, no candidates without
/// input, and a selection inside the list. The one key left out divides
/// by a page size of zero.
pub proof fn lemma_key_step_keeps_inv(env: KeyEnv, w: KeyWorld, raw: u32, avail: bool, preds: Seq<PredictionView>, now: u64)
    requires
        state_inv(w.state, env.cfg.page_size as int),
        !(spec_classify_key(raw) == KeyAction::PageDown && navigable(w.state) && env.cfg.page_size == 0),
    ensures
        state_inv(key_step(env, w, raw, avail, preds, now).0.state, env.cfg.page_size as int),
{
    let s = w.state;
    let ps = env.cfg.page_size as int;
    let len = s.candidates.len() as int;
    let page = s.current_page as int;
    let sel = s.selected_index as int;
    let r = key_step(env, w, raw, avail, preds, now).0.state;
    match spec_classify_key(raw) {
        KeyAction::Letter(c) => {
            lemma_lower_letter(raw);
            if s.preedit.len() < env.cfg.max_preedit_length {
                let p = s.preedit.push(c);
                assert forall|k: int| 0 <= k < r.preedit.len() implies 'a' <= #[trigger] r.preedit[k] <= 'z' by {
                    assert(r.preedit == p);
                    if k < s.preedit.len() {
                        assert(p[k] == s.preedit[k]);
                    }
                }
            }
        },
        KeyAction::Backspace => {
            if s.is_active && s.preedit.len() > 0 {
                let p = s.preedit.drop_last();
                assert forall|k: int| 0 <= k < r.preedit.len() implies 'a' <= #[trigger] r.preedit[k] <= 'z' by {
                    assert(r.preedit == p);
                    assert(p[k] == s.preedit[k]);
                }
            }
        },
        KeyAction::PageUp => {
            if navigable(s) && page > 0 {
                assert((page - 1) * ps <= page * ps) by (nonlinear_arith)
                    requires
                        ps >= 0,
                        page > 0,
                ;
            }
        },
        KeyAction::PageDown => {
            if navigable(s) && page < last_page(len, ps) {
                assert((page + 1) * ps < len) by (nonlinear_arith)
                    requires
                        ps > 0,
                        len > 0,
                        page < (len - 1) / ps,
                ;
            }
        },
        KeyAction::Previous => {
            if navigable(s) && sel == 0 && page > 0 {
                assert(ps > 0);
                assert((page - 1) * ps + ps == page * ps) by (nonlinear_arith);
                assert(page_len(len, page - 1, ps) == ps);
            }
        },
        KeyAction::Next => {
            if navigable(s) {
                let plen = page_len(len, page, ps);
                if ps > 0 {
                    assert(plen >= 1);
                    if !((plen == 0 && sel < usize::MAX) || sel + 1 < plen) && page < last_page(len, ps) {
                        assert((page + 1) * ps < len) by (nonlinear_arith)
                            requires
                                ps > 0,
                                len > 0,
                                page < (len - 1) / ps,
                        ;
                    }
                } else {
                    assert(page * ps == 0) by (nonlinear_arith)
                        requires
                            ps == 0,
                    ;
                    assert(plen == 0);
                }
            }
        },
        _ => {},
    }
}

// ---------------------------------------------------------------------
// The engine
// ---------------------------------------------------------------------

/// The main input method engine.
pub struct InputEngine<M> {
    /// Configuration
    config: Config,
    /// Pinyin parser
    pinyin_parser: PinyinParser,
    /// Fuzzy pinyin matcher
    fuzzy_matcher: FuzzyPinyinMatcher,
    /// The built-in characters of each syllable
    builtin: Vec<(Vec<char>, Vec<char>)>,
    /// Dictionary
    dictionary: Dictionary,
    /// AI model backend
    model: M,
    /// Input states per context (key: the context's address)
    states: HashMap<usize, InputState>,
    /// Commits since the user dictionary was last due for saving
    commit_counter: usize,
    /// The user dictionary is due for saving
    save_pending: bool,
}

impl<M> InputEngine<M> {
    /// The configuration.
    pub closed spec fn spec_config(&self) -> Config {
        self.config
    }

    /// The states of the input contexts seen so far.
    pub closed spec fn states(&self) -> Map<usize, StateView> {
        self.states@.map_values(|st: InputState| st@)
    }

    /// The state of an input context: a fresh state for a context not
    /// seen so far.
    pub open spec fn state_of(&self, ic: usize) -> StateView {
        if self.states().contains_key(ic) { self.states()[ic] } else { default_state() }
    }

    /// The user table of the dictionary.
    pub closed spec fn user(&self) -> TableView {
        self.dictionary.user()
    }

    /// The system table of the dictionary.
    pub closed spec fn system(&self) -> TableView {
        self.dictionary.system()
    }

    /// Whether commits are learned.
    pub closed spec fn learning(&self) -> bool {
        self.dictionary.learning()
    }

    /// Commits since the user table was last due for saving.
    pub closed spec fn counter(&self) -> int {
        self.commit_counter as int
    }

    /// The user table is due for saving.
    pub closed spec fn save_requested(&self) -> bool {
        self.save_pending
    }

    /// The backend.
    pub closed spec fn backend(&self) -> M {
        self.model
    }

    /// What key handling reads.
    pub open spec fn env(&self) -> KeyEnv {
        KeyEnv { cfg: self.spec_config().input, system: self.system(), learning: self.learning() }
    }

    /// The world of a key on a given state of its context.
    pub open spec fn world_with(&self, s: StateView) -> KeyWorld {
        KeyWorld { state: s, user: self.user(), counter: self.counter(), save: self.save_requested() }
    }

    /// The world of a key on context `ic`.
    pub open spec fn world(&self, ic: usize) -> KeyWorld {
        self.world_with(self.state_of(ic))
    }

    /// The engine is well formed: the parser and the built-in table are
    /// the built-in ones, the counter is below a save, and every state
    /// keeps the state invariant.
    pub closed spec fn wf(&self) -> bool {
        &&& self.pinyin_parser.syllables() == builtin_syllables()
        &&& rows_view(self.builtin@) == builtin_rows()
        &&& self.commit_counter < COMMITS_PER_SAVE
        &&& forall|ic: usize| #[trigger] self.states@.contains_key(ic) ==> state_inv(self.states@[ic]@, self.config.input.page_size as int)
    }

    /// The state of every input context of a well-formed engine keeps the
    /// state invariant under the configured page size.
    pub proof fn lemma_state_consistent(&self, ic: usize)
        requires
            self.wf(),
        ensures
            state_inv(self.state_of(ic), self.spec_config().input.page_size as int),
    {
        if self.states@.contains_key(ic) {
            assert(self.states()[ic] == self.states@[ic]@);
        }
    }

    /// A key on one input context leaves the state of every other context
    /// as it was.
    pub proof fn lemma_other_contexts_unchanged(
        &self,
        before: &Self,
        ic: usize,
        other: usize,
        raw: u32,
        mods: u32,
        is_release: bool,
        avail: bool,
        preds: Seq<PredictionView>,
        now: u64,
        r: IMReturnValue,
    )
        requires
            self.applied(before, ic, raw, mods, is_release, avail, preds, now, r),
            other != ic,
        ensures
            self.state_of(other) == before.state_of(other),
    {
    }

    /// Everything but the states, the user table, the counter and the
    /// save request is as in `other`.
    pub closed spec fn same_setup(&self, other: &Self) -> bool {
        &&& self.config == other.config
        &&& self.pinyin_parser == other.pinyin_parser
        &&& self.fuzzy_matcher == other.fuzzy_matcher
        &&& self.builtin == other.builtin
        &&& self.model == other.model
        &&& self.dictionary.system() == other.dictionary.system()
        &&& self.dictionary.learning() == other.dictionary.learning()
        &&& self.dictionary.spec_config() == other.dictionary.spec_config()
    }

    /// `self` is `before` after key `raw` with modifiers `mods` on
    /// context `ic`, given the backend's answer and the clock reading:
    /// released keys and keys with control, alt or super are passed on
    /// and change nothing; other keys have the effect of `key_step`, and
    /// the context's state is stored.
    pub open spec fn applied(
        &self,
        before: &Self,
        ic: usize,
        raw: u32,
        mods: u32,
        is_release: bool,
        avail: bool,
        preds: Seq<PredictionView>,
        now: u64,
        r: IMReturnValue,
    ) -> bool {
        &&& self.spec_config() == before.spec_config()
        &&& self.system() == before.system()
        &&& self.learning() == before.learning()
        &&& self.backend() == before.backend()
        &&& if is_release || has_command_modifier(mods) {
            &&& self.states() == before.states()
            &&& self.user() == before.user()
            &&& self.counter() == before.counter()
            &&& self.save_requested() == before.save_requested()
            &&& r == IMReturnValue::Forward
        } else {
            let (w, res) = key_step(before.env(), before.world(ic), raw, avail, preds, now);
            &&& self.states() == before.states().insert(ic, w.state)
            &&& self.user() == w.user
            &&& self.counter() == w.counter
            &&& self.save_requested() == w.save
            &&& r == res
        }
    }
}

/// Whether every syllable is a single ASCII letter.
fn is_initial_exec(syls: &Vec<Vec<char>>) -> (b: bool)
    ensures
        b == is_initial_input(seqs_view(syls@)),
{
    let ghost sv = seqs_view(syls@);
    let mut i: usize = 0;
    while i < syls.len()
        invariant
            i <= syls.len(),
            sv == seqs_view(syls@),
            forall|k: int| 0 <= k < i ==> (#[trigger] sv[k]).len() == 1 && is_ascii_alpha(sv[k][0]),
        decreases syls.len() - i,
    {
        assert(sv[i as int] == syls@[i as int]@);
        if syls[i].len() != 1 {
            return false;
        }
        let c = syls[i][0];
        if !(('a' <= c && c <= 'z') || ('A' <= c && c <= 'Z')) {
            return false;
        }
        i = i + 1;
    }
    true
}

impl<M: ModelBackend> InputEngine<M> {
    /// Recomputes the candidates of a state (none for an empty preedit),
    /// on the first page with the first candidate selected.
    fn update_candidates(&self, st: &mut InputState, avail: bool, preds: &Vec<PredictionResult>)
        requires
            self.wf(),
        ensures
            final(st)@ == with_cands(
                old(st)@,
                spec_update_cands(self.env().cfg, self.user(), self.system(), old(st).preedit@, avail, predictions_view(preds@)),
            ),
    {
        let pre = chars_of(st.preedit.as_str());
        if pre.len() == 0 {
            st.candidates = Vec::new();
            st.current_page = 0;
            st.selected_index = 0;
            assert(cands_view(st.candidates@) =~= Seq::<CandView>::empty());
            return;
        }
        let syls = self.pinyin_parser.parse_chars(pre.as_slice());
        let ghost sv = seqs_view(syls@);
        let ghost cfg = self.env().cfg;
        let ghost user = self.user();
        let ghost system = self.system();
        let mut cs: Vec<Candidate> = Vec::new();
        assert(cands_view(cs@) =~= Seq::<CandView>::empty());
        if is_initial_exec(&syls) && syls.len() > 1 {
            proof {
                assert forall|k: int| 0 <= k < syls@.len() implies (#[trigger] syls@[k]).len() > 0 by {
                    assert(sv[k] == syls@[k]@);
                }
            }
            push_initial_cands(&mut cs, &self.dictionary, &self.pinyin_parser, &syls);
        } else if syls.len() == 1 {
            assert(sv[0] == syls@[0]@);
            let es = lookup_key(&self.dictionary, syls[0].as_slice());
            push_dict_cands(&mut cs, &es);
            assert(Seq::<CandView>::empty() + dict_cands(crate::dictionary::entries_view(es@)) =~= dict_cands(
                crate::dictionary::entries_view(es@),
            ));
            if cs.len() == 0 {
                let chars = builtin_chars_in(&self.builtin, syls[0].as_slice());
                push_builtin_cands(&mut cs, syls[0].as_slice(), &chars);
                assert(cands_view(cs@) =~= builtin_cands(sv[0], builtin_chars(builtin_rows(), sv[0])));
            }
            if self.config.input.fuzzy_pinyin {
                push_fuzzy_cands(&mut cs, &self.dictionary, &self.fuzzy_matcher, syls[0].as_slice());
            }
        } else {
            push_phrase_cands(&mut cs, &self.dictionary, &self.builtin, &syls);
        }
        assert(cands_view(cs@) == base_cands(cfg, user, system, sv));
        if self.config.input.enable_phrase_prediction && pre.len() >= self.config.input.min_ai_input_length && avail {
            push_ai_cands(&mut cs, &st.preedit, preds);
        }
        let mut sorted = sort_cands_by_score(&cs);
        let ghost before = cands_view(sorted@);
        sorted.truncate(self.config.input.num_candidates);
        assert(cands_view(sorted@) =~= take_at_most(before, self.config.input.num_candidates as int));
        st.candidates = sorted;
        st.current_page = 0;
        st.selected_index = 0;
    }

    /// Commits a candidate (see `commit_world`).
    fn commit_candidate(&mut self, st: &mut InputState, cand: &Candidate, now: u64)
        requires
            old(self).wf(),
        ensures
            final(self).wf(),
            final(self).same_setup(old(self)),
            final(self).states() == old(self).states(),
            ({
                let w = commit_world(old(self).env(), old(self).world_with(old(st)@), cand@, now);
                &&& final(st)@ == w.state
                &&& final(self).user() == w.user
                &&& final(self).counter() == w.counter
                &&& final(self).save_requested() == w.save
            }),
    {
        self.dictionary.update_frequency_at(cand.pinyin.as_str(), cand.text.as_str(), now);
        st.commit_text = cand.text.clone();
        let ctx = chars_of(st.context.as_str());
        let txt = chars_of(cand.text.as_str());
        let joined = concat_chars(ctx.as_slice(), txt.as_slice());
        if joined.len() > MAX_CONTEXT_CHARS {
            let cut = slice_chars(joined.as_slice(), 0, MAX_CONTEXT_CHARS);
            st.context = string_from_chars(cut.as_slice());
        } else {
            st.context = string_from_chars(joined.as_slice());
        }
        st.preedit = String::new();
        st.candidates = Vec::new();
        st.is_active = false;
        assert(cands_view(st.candidates@) =~= Seq::<CandView>::empty());
        let count = self.commit_counter + 1;
        if count >= COMMITS_PER_SAVE {
            self.commit_counter = 0;
            self.save_pending = true;
        } else {
            self.commit_counter = count;
        }
    }

    /// A key that changes only the state of its context: the state and
    /// the result are those of `out`, which leaves the rest of the world
    /// as it was.
    spec fn state_only(&self, s: StateView, out: (KeyWorld, IMReturnValue), r: IMReturnValue) -> bool {
        &&& s == out.0.state
        &&& out.0.user == self.user()
        &&& out.0.counter == self.counter()
        &&& out.0.save == self.save_requested()
        &&& r == out.1
    }

    /// The world after a key that may commit: the state of its context,
    /// the user table, the counter and the save request are those of
    /// `out`.
    spec fn world_is(&self, s: StateView, out: (KeyWorld, IMReturnValue), r: IMReturnValue) -> bool {
        &&& s == out.0.state
        &&& self.user() == out.0.user
        &&& self.counter() == out.0.counter
        &&& self.save_requested() == out.0.save
        &&& r == out.1
    }

    /// Handle letter input.
    fn handle_letter(&self, st: &mut InputState, ch: char, avail: bool, preds: &Vec<PredictionResult>) -> (r: IMReturnValue)
        requires
            self.wf(),
        ensures
            self.state_only(final(st)@, letter_step(self.env(), self.world_with(old(st)@), ch, avail, predictions_view(preds@)), r),
    {
        let n = chars_of(st.preedit.as_str()).len();
        if n >= self.config.input.max_preedit_length {
            return IMReturnValue::Consume;
        }
        crate::text::push_char(&mut st.preedit, ch);
        st.cursor_pos = n + 1;
        st.is_active = true;
        self.update_candidates(st, avail, preds);
        IMReturnValue::Consume
    }

    /// Handle a digit key (candidate selection on the current page).
    fn handle_number(&mut self, st: &mut InputState, num: u32, now: u64) -> (r: IMReturnValue)
        requires
            old(self).wf(),
            state_inv(old(st)@, old(self).spec_config().input.page_size as int),
        ensures
            final(self).wf(),
            final(self).same_setup(old(self)),
            final(self).states() == old(self).states(),
            final(self).world_is(final(st)@, digit_step(old(self).env(), old(self).world_with(old(st)@), num as int, now), r),
    {
        if num == 0 || !st.is_active || st.candidates.len() == 0 {
            return IMReturnValue::Forward;
        }
        let len = st.candidates.len();
        assert(cands_view(st.candidates@).len() == len);
        let start = st.current_page * self.config.input.page_size;
        if ((num - 1) as usize) >= len - start {
            return IMReturnValue::Forward;
        }
        let idx: usize = start + (num - 1) as usize;
        let cand = st.candidates[idx].duplicate();
        assert(cand@ == cands_view(old(st).candidates@)[idx as int]);
        self.commit_candidate(st, &cand, now);
        IMReturnValue::Consume
    }

    /// Handle punctuation: commit the first candidate first when
    /// auto-commit is on, then pass the key on.
    fn handle_punctuation(&mut self, st: &mut InputState, now: u64) -> (r: IMReturnValue)
        requires
            old(self).wf(),
        ensures
            final(self).wf(),
            final(self).same_setup(old(self)),
            final(self).states() == old(self).states(),
            final(self).world_is(final(st)@, punctuation_step(old(self).env(), old(self).world_with(old(st)@), now), r),
    {
        if st.is_active && chars_of(st.preedit.as_str()).len() > 0 && self.config.input.auto_commit_on_punctuation
            && st.candidates.len() > 0 {
            let cand = st.candidates[0].duplicate();
            assert(cand@ == cands_view(old(st).candidates@)[0]);
            self.commit_candidate(st, &cand, now);
        }
        IMReturnValue::Forward
    }

    /// Handle backspace.
    fn handle_backspace(&self, st: &mut InputState, avail: bool, preds: &Vec<PredictionResult>) -> (r: IMReturnValue)
        requires
            self.wf(),
        ensures
            self.state_only(final(st)@, backspace_step(self.env(), self.world_with(old(st)@), avail, predictions_view(preds@)), r),
    {
        let mut cs = chars_of(st.preedit.as_str());
        if !st.is_active || cs.len() == 0 {
            return IMReturnValue::Forward;
        }
        cs.pop();
        st.preedit = string_from_chars(cs.as_slice());
        st.cursor_pos = cs.len();
        if cs.len() == 0 {
            st.is_active = false;
            st.candidates = Vec::new();
            assert(cands_view(st.candidates@) =~= Seq::<CandView>::empty());
        } else {
            self.update_candidates(st, avail, preds);
        }
        IMReturnValue::Consume
    }

    /// Handle return: commit the raw pinyin.
    fn handle_return(&self, st: &mut InputState) -> (r: IMReturnValue)
        requires
            self.wf(),
        ensures
            self.state_only(final(st)@, return_step(self.world_with(old(st)@)), r),
    {
        if !st.is_active || chars_of(st.preedit.as_str()).len() == 0 {
            return IMReturnValue::Forward;
        }
        st.commit_text = st.preedit.clone();
        st.context.append(st.preedit.as_str());
        st.preedit = String::new();
        st.candidates = Vec::new();
        assert(cands_view(st.candidates@) =~= Seq::<CandView>::empty());
        st.is_active = false;
        IMReturnValue::Consume
    }

    /// Handle escape.
    fn handle_escape(&self, st: &mut InputState) -> (r: IMReturnValue)
        requires
            self.wf(),
        ensures
            self.state_only(final(st)@, escape_step(self.world_with(old(st)@)), r),
    {
        if !st.is_active {
            return IMReturnValue::Forward;
        }
        st.preedit = String::new();
        st.candidates = Vec::new();
        assert(cands_view(st.candidates@) =~= Seq::<CandView>::empty());
        st.is_active = false;
        IMReturnValue::Consume
    }

    /// Handle space: commit the selected candidate.
    fn handle_space(&mut self, st: &mut InputState, now: u64) -> (r: IMReturnValue)
        requires
            old(self).wf(),
            state_inv(old(st)@, old(self).spec_config().input.page_size as int),
        ensures
            final(self).wf(),
            final(self).same_setup(old(self)),
            final(self).states() == old(self).states(),
            final(self).world_is(final(st)@, space_step(old(self).env(), old(self).world_with(old(st)@), now), r),
    {
        if !st.is_active || chars_of(st.preedit.as_str()).len() == 0 {
            return IMReturnValue::Forward;
        }
        if st.candidates.len() == 0 {
            return IMReturnValue::Consume;
        }
        assert(cands_view(st.candidates@).len() == st.candidates.len());
        let idx = st.current_page * self.config.input.page_size + st.selected_index;
        let cand = st.candidates[idx].duplicate();
        assert(cand@ == cands_view(old(st).candidates@)[idx as int]);
        self.commit_candidate(st, &cand, now);
        IMReturnValue::Consume
    }

    /// Handle page up.
    fn handle_page_up(&self, st: &mut InputState) -> (r: IMReturnValue)
        requires
            self.wf(),
        ensures
            self.state_only(final(st)@, page_up_step(self.world_with(old(st)@)), r),
    {
        if !st.is_active || st.candidates.len() == 0 {
            return IMReturnValue::Forward;
        }
        if st.current_page > 0 {
            st.current_page = st.current_page - 1;
            st.selected_index = 0;
        }
        IMReturnValue::Consume
    }

    /// Handle page down.
    fn handle_page_down(&self, st: &mut InputState) -> (r: IMReturnValue)
        requires
            self.wf(),
            navigable(old(st)@) ==> self.spec_config().input.page_size > 0,
        ensures
            self.state_only(final(st)@, page_down_step(self.env(), self.world_with(old(st)@)), r),
    {
        if !st.is_active || st.candidates.len() == 0 {
            return IMReturnValue::Forward;
        }
        assert(cands_view(st.candidates@).len() == st.candidates.len());
        let max_page = (st.candidates.len() - 1) / self.config.input.page_size;
        if st.current_page < max_page {
            st.current_page = st.current_page + 1;
            st.selected_index = 0;
        }
        IMReturnValue::Consume
    }

    /// The number of candidates on the current page of a state.
    fn current_page_size(&self, st: &InputState) -> (n: usize)
        requires
            st.candidates.len() > 0 ==> st.current_page * self.spec_config().input.page_size < st.candidates.len(),
        ensures
            n == page_len(st.candidates.len() as int, st.current_page as int, self.spec_config().input.page_size as int),
    {
        let ps = self.config.input.page_size;
        let len = st.candidates.len();
        if len == 0 {
            return 0;
        }
        let start = st.current_page * ps;
        let rest = len - start;
        if rest < ps { rest } else { ps }
    }

    /// Handle left: select the previous candidate.
    fn handle_left(&self, st: &mut InputState) -> (r: IMReturnValue)
        requires
            self.wf(),
            state_inv(old(st)@, self.spec_config().input.page_size as int),
        ensures
            self.state_only(final(st)@, previous_step(self.env(), self.world_with(old(st)@)), r),
    {
        if !st.is_active || st.candidates.len() == 0 {
            return IMReturnValue::Forward;
        }
        let ghost len = st.candidates.len() as int;
        let ghost ps = self.config.input.page_size as int;
        assert(cands_view(st.candidates@).len() == st.candidates.len());
        if st.selected_index > 0 {
            st.selected_index = st.selected_index - 1;
        } else if st.current_page > 0 {
            let ghost page = st.current_page as int;
            assert(ps > 0);
            assert((page - 1) * ps + ps == page * ps) by (nonlinear_arith);
            st.current_page = st.current_page - 1;
            let size = self.current_page_size(st);
            assert(size == ps);
            st.selected_index = size - 1;
        }
        IMReturnValue::Consume
    }

    /// Handle right: select the next candidate.
    fn handle_right(&self, st: &mut InputState) -> (r: IMReturnValue)
        requires
            self.wf(),
            state_inv(old(st)@, self.spec_config().input.page_size as int),
        ensures
            self.state_only(final(st)@, next_step(self.env(), self.world_with(old(st)@)), r),
    {
        if !st.is_active || st.candidates.len() == 0 {
            return IMReturnValue::Forward;
        }
        let ps = self.config.input.page_size;
        let len = st.candidates.len();
        assert(cands_view(st.candidates@).len() == len);
        let plen = self.current_page_size(st);
        let last: usize = if plen == 0 { usize::MAX } else { plen - 1 };
        if st.selected_index < last {
            let next = st.current_page * ps + st.selected_index + 1;
            if next < len {
                st.selected_index = st.selected_index + 1;
            }
        } else {
            if ps == 0 {
                assert(st.current_page * ps == 0) by (nonlinear_arith)
                    requires
                        ps == 0,
                ;
            }
            let max_page = (len - 1) / ps;
            if st.current_page < max_page {
                st.current_page = st.current_page + 1;
                st.selected_index = 0;
            }
        }
        IMReturnValue::Consume
    }

    /// The effect of one key on the state of its context (see `key_step`).
    fn step(&mut self, st: &mut InputState, raw: u32, avail: bool, preds: &Vec<PredictionResult>, now: u64) -> (r: IMReturnValue)
        requires
            old(self).wf(),
            state_inv(old(st)@, old(self).spec_config().input.page_size as int),
            !(spec_classify_key(raw) == KeyAction::PageDown && navigable(old(st)@) && old(self).spec_config().input.page_size == 0),
        ensures
            final(self).wf(),
            final(self).same_setup(old(self)),
            final(self).states() == old(self).states(),
            final(self).world_is(
                final(st)@,
                key_step(old(self).env(), old(self).world_with(old(st)@), raw, avail, predictions_view(preds@), now),
                r,
            ),
    {
        match classify_key(raw) {
            KeyAction::Backspace => self.handle_backspace(st, avail, preds),
            KeyAction::Commit => self.handle_return(st),
            KeyAction::Cancel => self.handle_escape(st),
            KeyAction::Select => self.handle_space(st, now),
            KeyAction::PageUp => self.handle_page_up(st),
            KeyAction::PageDown => self.handle_page_down(st),
            KeyAction::Previous => self.handle_left(st),
            KeyAction::Next => self.handle_right(st),
            KeyAction::Letter(c) => self.handle_letter(st, c, avail, preds),
            KeyAction::Digit(n) => self.handle_number(st, n, now),
            KeyAction::Punctuation => self.handle_punctuation(st, now),
            KeyAction::Other => IMReturnValue::Forward,
        }
    }

    /// The state of an input context (a fresh one for a context not seen
    /// so far).
    fn get_state(&self, ic: usize) -> (st: InputState)
        requires
            self.wf(),
        ensures
            st@ == self.state_of(ic),
            state_inv(st@, self.spec_config().input.page_size as int),
    {
        broadcast use vstd::std_specs::hash::group_hash_axioms;
        match self.states.get(&ic) {
            Some(st) => st.duplicate(),
            None => InputState::default(),
        }
    }

    /// Stores the state of an input context.
    fn update_state(&mut self, ic: usize, st: InputState)
        requires
            old(self).wf(),
            state_inv(st@, old(self).spec_config().input.page_size as int),
        ensures
            final(self).wf(),
            final(self).same_setup(old(self)),
            final(self).states() == old(self).states().insert(ic, st@),
            final(self).user() == old(self).user(),
            final(self).counter() == old(self).counter(),
            final(self).save_requested() == old(self).save_requested(),
    {
        broadcast use vstd::std_specs::hash::group_hash_axioms;
        self.states.insert(ic, st);
        assert(self.states() =~= old(self).states().insert(ic, st@));
    }

    /// Handle a key event with the backend's availability and predictions
    /// and the clock reading given (see `applied`).
    pub fn apply_key(
        &mut self,
        ic: usize,
        keysym: u32,
        state: u32,
        is_release: bool,
        avail: bool,
        preds: &Vec<PredictionResult>,
        now: u64,
    ) -> (r: IMReturnValue)
        requires
            old(self).wf(),
            !pages_undefined(old(self).spec_config().input, old(self).state_of(ic), keysym, state, is_release),
        ensures
            final(self).wf(),
            final(self).applied(old(self), ic, keysym, state, is_release, avail, predictions_view(preds@), now, r),
    {
        if is_release {
            return IMReturnValue::Forward;
        }
        if command_modifier(state) {
            return IMReturnValue::Forward;
        }
        let mut input_state = self.get_state(ic);
        let ghost s0 = input_state@;
        let result = self.step(&mut input_state, keysym, avail, preds, now);
        proof {
            lemma_key_step_keeps_inv(old(self).env(), old(self).world_with(s0), keysym, avail, predictions_view(preds@), now);
        }
        self.update_state(ic, input_state);
        result
    }

    /// The backend request that a key leads to (see `key_query`): the
    /// committed context and the new preedit.
    pub fn prediction_query(&self, ic: usize, keysym: u32, state: u32, is_release: bool) -> (q: Option<(String, String)>)
        requires
            self.wf(),
        ensures
            match q {
                Some((c, p)) => key_query(self.spec_config().input, self.state_of(ic), keysym, state, is_release)
                    == Some((c@, p@)),
                None => key_query(self.spec_config().input, self.state_of(ic), keysym, state, is_release) is None,
            },
    {
        if is_release {
            return None;
        }
        if command_modifier(state) {
            return None;
        }
        let st = self.get_state(ic);
        let mut cs = chars_of(st.preedit.as_str());
        let cfg = &self.config.input;
        match classify_key(keysym) {
            KeyAction::Backspace => {
                if st.is_active && cs.len() > 1 {
                    cs.pop();
                    if cfg.enable_phrase_prediction && cs.len() >= cfg.min_ai_input_length {
                        return Some((st.context.clone(), string_from_chars(cs.as_slice())));
                    }
                }
                None
            },
            KeyAction::Letter(c) => {
                if cs.len() < cfg.max_preedit_length {
                    cs.push(c);
                    if cfg.enable_phrase_prediction && cs.len() >= cfg.min_ai_input_length {
                        return Some((st.context.clone(), string_from_chars(cs.as_slice())));
                    }
                }
                None
            },
            _ => None,
        }
    }

    /// Handle a key event: asks the backend where the key makes a new
    /// candidate list that wants predictions, reads the clock, and does
    /// what `apply_key` does with the answers. `instance` and `keycode`
    /// are not used.
    pub fn handle_key(&mut self, instance: usize, ic: usize, keysym: u32, keycode: u32, state: u32, is_release: bool) -> (r: IMReturnValue)
        requires
            old(self).wf(),
            !pages_undefined(old(self).spec_config().input, old(self).state_of(ic), keysym, state, is_release),
        ensures
            final(self).wf(),
            exists|avail: bool, preds: Seq<PredictionView>, now: u64|
                #[trigger] final(self).applied(old(self), ic, keysym, state, is_release, avail, preds, now, r)
                    && match key_query(old(self).spec_config().input, old(self).state_of(ic), keysym, state, is_release) {
                        Some((c, p)) => {
                            &&& old(self).backend().availability_answer(avail)
                            &&& avail ==> old(self).backend().prediction_answer(c, p, preds)
                            &&& !avail ==> preds.len() == 0
                        },
                        None => !avail && preds.len() == 0,
                    },
    {
        let mut avail = false;
        let mut preds: Vec<PredictionResult> = Vec::new();
        match self.prediction_query(ic, keysym, state, is_release) {
            Some((context, preedit)) => {
                avail = self.model.is_available();
                if avail {
                    preds = self.model.predict(context.as_str(), preedit.as_str());
                }
            },
            None => {},
        }
        let now = unix_time_now();
        let r = self.apply_key(ic, keysym, state, is_release, avail, &preds, now);
        assert(self.applied(old(self), ic, keysym, state, is_release, avail, predictions_view(preds@), now, r));
        assert(predictions_view(preds@).len() == preds@.len());
        r
    }

    /// An engine over a configuration, a dictionary and a backend, with
    /// no input context seen yet.
    pub fn with_backend(config: Config, dictionary: Dictionary, model: M) -> (e: Self)
        ensures
            e.wf(),
            e.spec_config() == config,
            e.states() == Map::<usize, StateView>::empty(),
            e.user() == dictionary.user(),
            e.system() == dictionary.system(),
            e.learning() == dictionary.learning(),
            e.counter() == 0,
            !e.save_requested(),
            e.backend() == model,
    {
        let e = InputEngine {
            config,
            pinyin_parser: PinyinParser::new(),
            fuzzy_matcher: FuzzyPinyinMatcher::new(),
            builtin: crate::pinyin::builtin_table(),
            dictionary,
            model,
            states: HashMap::new(),
            commit_counter: 0,
            save_pending: false,
        };
        assert(e.states() =~= Map::<usize, StateView>::empty());
        e
    }

    /// Get current preedit text.
    pub fn get_preedit(&self, ic: usize) -> (r: String)
        requires
            self.wf(),
        ensures
            r@ == self.state_of(ic).preedit,
    {
        self.get_state(ic).preedit
    }

    /// Get all candidates.
    pub fn get_candidates(&self, ic: usize) -> (r: Vec<Candidate>)
        requires
            self.wf(),
        ensures
            cands_view(r@) == self.state_of(ic).candidates,
    {
        self.get_state(ic).candidates
    }

    /// Get current page index.
    pub fn get_current_page(&self, ic: usize) -> (r: usize)
        requires
            self.wf(),
        ensures
            r == self.state_of(ic).current_page,
    {
        self.get_state(ic).current_page
    }

    /// Get the selected candidate's index within the current page.
    pub fn get_selected_index(&self, ic: usize) -> (r: usize)
        requires
            self.wf(),
        ensures
            r == self.state_of(ic).selected_index,
    {
        self.get_state(ic).selected_index
    }

    /// Get total number of candidates.
    pub fn get_total_candidates(&self, ic: usize) -> (r: usize)
        requires
            self.wf(),
        ensures
            r == self.state_of(ic).candidates.len(),
    {
        let st = self.get_state(ic);
        assert(cands_view(st.candidates@).len() == st.candidates.len());
        st.candidates.len()
    }

    /// Get page size from config.
    pub fn get_config_page_size(&self) -> (r: usize)
        ensures
            r == self.spec_config().input.page_size,
    {
        self.config.input.page_size
    }

    /// Get the configured page size.
    pub fn get_page_size(&self) -> (r: usize)
        ensures
            r == self.spec_config().input.page_size,
    {
        self.config.input.page_size
    }

    /// Get the text to commit and clear it.
    pub fn get_commit_text(&mut self, ic: usize) -> (r: String)
        requires
            old(self).wf(),
        ensures
            final(self).wf(),
            r@ == old(self).state_of(ic).commit_text,
            final(self).states() == (if r@.len() > 0 {
                old(self).states().insert(ic, StateView { commit_text: Seq::empty(), ..old(self).state_of(ic) })
            } else {
                old(self).states()
            }),
            final(self).user() == old(self).user(),
            final(self).counter() == old(self).counter(),
            final(self).save_requested() == old(self).save_requested(),
            final(self).spec_config() == old(self).spec_config(),
    {
        let mut st = self.get_state(ic);
        let text = st.commit_text.clone();
        if chars_of(text.as_str()).len() > 0 {
            st.commit_text = String::new();
            self.update_state(ic, st);
        }
        text
    }

    /// Reset input state.
    pub fn reset(&mut self, ic: usize)
        requires
            old(self).wf(),
        ensures
            final(self).wf(),
            final(self).states() == old(self).states().insert(ic, default_state()),
            final(self).user() == old(self).user(),
            final(self).counter() == old(self).counter(),
            final(self).save_requested() == old(self).save_requested(),
            final(self).spec_config() == old(self).spec_config(),
    {
        let st = InputState::default();
        self.update_state(ic, st);
    }

    /// Focus in handler: the state of the context is used as it is, and
    /// nothing changes.
    pub fn focus_in(&self, ic: usize)
        requires
            self.wf(),
    {
        let _ = self.get_state(ic);
    }

    /// Focus out handler: drops the preedit and the candidates.
    pub fn focus_out(&mut self, ic: usize)
        requires
            old(self).wf(),
        ensures
            final(self).wf(),
            final(self).states() == old(self).states().insert(
                ic,
                StateView { preedit: Seq::empty(), candidates: Seq::empty(), is_active: false, ..old(self).state_of(ic) },
            ),
            final(self).user() == old(self).user(),
            final(self).counter() == old(self).counter(),
            final(self).save_requested() == old(self).save_requested(),
            final(self).spec_config() == old(self).spec_config(),
    {
        let mut st = self.get_state(ic);
        st.preedit = String::new();
        st.candidates = Vec::new();
        assert(cands_view(st.candidates@) =~= Seq::<CandView>::empty());
        st.is_active = false;
        self.update_state(ic, st);
    }

    /// Check if the AI backend is available: the backend's answer.
    pub fn is_model_available(&self) -> (r: bool)
        ensures
            self.backend().availability_answer(r),
    {
        self.model.is_available()
    }

    /// Whether the user dictionary is due for saving; the request is
    /// cleared.
    pub fn take_save_request(&mut self) -> (r: bool)
        requires
            old(self).wf(),
        ensures
            final(self).wf(),
            r == old(self).save_requested(),
            !final(self).save_requested(),
            final(self).states() == old(self).states(),
            final(self).user() == old(self).user(),
            final(self).counter() == old(self).counter(),
            final(self).spec_config() == old(self).spec_config(),
    {
        let r = self.save_pending;
        self.save_pending = false;
        r
    }

    /// The dictionary.
    pub fn dictionary(&self) -> (d: &Dictionary)
        ensures
            d.user() == self.user(),
            d.system() == self.system(),
            d.learning() == self.learning(),
    {
        &self.dictionary
    }

    /// Select and commit candidate `index` (from 0) of the current page
    /// by pressing the digit key `index + 1`, and give the committed
    /// text. Nothing is committed, and `None` is given, when `index` is 9
    /// or more (then no key is pressed), when there is no input, or when
    /// the current page has no candidate `index`.
    pub fn select_candidate(&mut self, ic: usize, index: usize) -> (r: Option<String>)
        requires
            old(self).wf(),
        ensures
            final(self).wf(),
            index >= 9 ==> {
                &&& final(self).states() == old(self).states()
                &&& final(self).user() == old(self).user()
                &&& final(self).counter() == old(self).counter()
                &&& final(self).save_requested() == old(self).save_requested()
            },
            index < 9 ==> exists|avail: bool, preds: Seq<PredictionView>, now: u64, res: IMReturnValue|
                #[trigger] final(self).applied(old(self), ic, (0x31 + index) as u32, 0, false, avail, preds, now, res),
            ({
                let s = old(self).state_of(ic);
                let k = s.current_page * old(self).spec_config().input.page_size + index;
                match r {
                    Some(t) => {
                        &&& index < 9
                        &&& navigable(s)
                        &&& k < s.candidates.len()
                        &&& t@ == s.candidates[k].text
                        &&& final(self).state_of(ic).commit_text == t@
                        &&& final(self).state_of(ic).preedit.len() == 0
                    },
                    None => {
                        &&& (index >= 9 || !navigable(s) || k >= s.candidates.len())
                        &&& final(self).state_of(ic) == s
                        &&& final(self).user() == old(self).user()
                        &&& final(self).counter() == old(self).counter()
                        &&& final(self).save_requested() == old(self).save_requested()
                    },
                }
            }),
    {
        if index >= 9 {
            return None;
        }
        let ghost s0 = *self;
        let st = self.get_state(ic);
        let len = st.candidates.len();
        assert(cands_view(st.candidates@).len() == len);
        let mut text: Option<String> = None;
        if st.is_active && len > 0 {
            let start = st.current_page * self.config.input.page_size;
            if index < len - start {
                let t = st.candidates[start + index].text.clone();
                assert(t@ == cands_view(st.candidates@)[start + index].text);
                text = Some(t);
            }
        }
        let keysym: u32 = 0x31 + index as u32;
        assert(spec_classify_key(keysym) == KeyAction::Digit((keysym - 0x30) as u32));
        let res = self.handle_key(0, ic, keysym, 0, 0, false);
        proof {
            let (a, p, n) = choose|a: bool, p: Seq<PredictionView>, n: u64|
                #[trigger] self.applied(&s0, ic, keysym, 0, false, a, p, n, res);
            assert(self.applied(&s0, ic, keysym, 0, false, a, p, n, res));
            assert(!has_command_modifier(0));
            assert(self.states() == s0.states().insert(ic, key_step(s0.env(), s0.world(ic), keysym, a, p, n).0.state));
        }
        text
    }
}

impl InputEngine<NoOpModelClient> {
    /// An engine over the built-in dictionary with no AI backend.
    pub fn new(config: Config) -> (e: Self)
        ensures
            e.wf(),
            e.spec_config() == config,
            e.states() == Map::<usize, StateView>::empty(),
            e.user() == Seq::<(Seq<char>, Seq<crate::dictionary::EntryView>)>::empty(),
            e.system() == crate::dictionary::builtin_system_table(),
            e.learning() == config.dictionary.enable_learning,
            e.counter() == 0,
            !e.save_requested(),
    {
        let dictionary = Dictionary::new(config.dictionary.duplicate());
        InputEngine::with_backend(config, dictionary, NoOpModelClient)
    }
}

impl Default for InputEngine<NoOpModelClient> {
    fn default() -> (e: Self)
        ensures
            e.wf(),
            e.spec_config().input.page_size == 5,
            e.spec_config().input.max_preedit_length == 64,
            e.spec_config().input.num_candidates == 30,
            e.states() == Map::<usize, StateView>::empty(),
            e.user() == Seq::<(Seq<char>, Seq<crate::dictionary::EntryView>)>::empty(),
            e.system() == crate::dictionary::builtin_system_table(),
            e.learning(),
            e.counter() == 0,
            !e.save_requested(),
    {
        InputEngine::new(Config::default())
    }
}


} // verus!
