//! Candidates and per-context input state, and the sources that fill a
//! candidate list: dictionary entries, the built-in characters, fuzzy
//! variants, phrases, syllable combinations, initial letters and AI
//! predictions, and the ordering by score.
//!
//! Candidate scores are held in ten-thousandths (10000 is a score of 1.0).

use vstd::prelude::*;
use vstd::string::StringExecFns;
use crate::config::Config;
use crate::dictionary::{entries_view, spec_lookup, spec_update_frequency, DictEntry, Dictionary, EntryView, TableView};
use crate::model::{predictions_view, PredictionResult, PredictionSource, PredictionView};
use crate::pinyin::{
    builtin_chars, builtin_chars_in, builtin_rows, copy_chars, fuzzy_matches, rows_view, same_chars, segment, seqs_view, syllables_with_initial,
    FuzzyPinyinMatcher, PinyinParser,
};
use crate::text::{chars_of, find_first, lemma_find_first, lemma_find_first_at, lemma_find_first_none, string_from_chars};

verus! {

/// A score of 1.0.
pub const SCORE_ONE: i128 = 10000;

/// Candidate word.
#[derive(Debug, Clone)]
pub struct Candidate {
    /// The candidate text
    pub text: String,
    /// Pinyin for this candidate
    pub pinyin: String,
    /// Confidence score, in ten-thousandths
    pub score: i128,
    /// Source of this candidate
    pub source: PredictionSource,
}

/// The mathematical value of a candidate.
pub struct CandView {
    pub text: Seq<char>,
    pub pinyin: Seq<char>,
    pub score: int,
    pub source: PredictionSource,
}

impl View for Candidate {
    type V = CandView;

    open spec fn view(&self) -> CandView {
        CandView { text: self.text@, pinyin: self.pinyin@, score: self.score as int, source: self.source }
    }
}

impl Candidate {
    /// A copy of the candidate.
    pub fn duplicate(&self) -> (r: Candidate)
        ensures
            r@ == self@,
    {
        Candidate { text: self.text.clone(), pinyin: self.pinyin.clone(), score: self.score, source: self.source }
    }
}

/// The view of a candidate list.
pub open spec fn cands_view(v: Seq<Candidate>) -> Seq<CandView> {
    v.map_values(|c: Candidate| c@)
}

/// The predicate "candidate has text `t`".
pub open spec fn has_text_pred(t: Seq<char>) -> spec_fn(CandView) -> bool {
    |c: CandView| c.text == t
}

/// Index of the first candidate with text `t`, or -1.
pub open spec fn text_index(cs: Seq<CandView>, t: Seq<char>) -> int {
    find_first(cs, has_text_pred(t))
}

/// Some candidate has text `t`.
pub open spec fn has_text(cs: Seq<CandView>, t: Seq<char>) -> bool {
    text_index(cs, t) >= 0
}

/// The candidate for a dictionary entry with the given score and source.
pub open spec fn entry_cand(e: EntryView, score: int, source: PredictionSource) -> CandView {
    CandView { text: e.word, pinyin: e.pinyin, score, source }
}

/// Input state for each input context.
#[derive(Debug, Clone)]
pub struct InputState {
    /// Current preedit string (pinyin input)
    pub preedit: String,
    /// Current cursor position in preedit
    pub cursor_pos: usize,
    /// Candidates for the preedit
    pub candidates: Vec<Candidate>,
    /// Current candidate page
    pub current_page: usize,
    /// Currently selected candidate index within current page
    pub selected_index: usize,
    /// Committed text (context for AI)
    pub context: String,
    /// Is the input method active
    pub is_active: bool,
    /// Text to be committed (cleared after being read)
    pub commit_text: String,
}

/// The mathematical value of an input state.
pub struct StateView {
    pub preedit: Seq<char>,
    pub cursor_pos: usize,
    pub candidates: Seq<CandView>,
    pub current_page: usize,
    pub selected_index: usize,
    pub context: Seq<char>,
    pub is_active: bool,
    pub commit_text: Seq<char>,
}

impl View for InputState {
    type V = StateView;

    open spec fn view(&self) -> StateView {
        StateView {
            preedit: self.preedit@,
            cursor_pos: self.cursor_pos,
            candidates: cands_view(self.candidates@),
            current_page: self.current_page,
            selected_index: self.selected_index,
            context: self.context@,
            is_active: self.is_active,
            commit_text: self.commit_text@,
        }
    }
}

/// The state of a fresh input context.
pub open spec fn default_state() -> StateView {
    StateView {
        preedit: Seq::empty(),
        cursor_pos: 0,
        candidates: Seq::empty(),
        current_page: 0,
        selected_index: 0,
        context: Seq::empty(),
        is_active: false,
        commit_text: Seq::empty(),
    }
}

impl Default for InputState {
    fn default() -> (s: Self)
        ensures
            s@ == default_state(),
    {
        let s = InputState {
            preedit: String::new(),
            cursor_pos: 0,
            candidates: Vec::new(),
            current_page: 0,
            selected_index: 0,
            context: String::new(),
            is_active: false,
            commit_text: String::new(),
        };
        assert(cands_view(s.candidates@) =~= Seq::<CandView>::empty());
        s
    }
}

/// A copy of a candidate list.
pub fn duplicate_cands(v: &Vec<Candidate>) -> (r: Vec<Candidate>)
    ensures
        cands_view(r@) == cands_view(v@),
{
    let mut r: Vec<Candidate> = Vec::new();
    let mut i: usize = 0;
    while i < v.len()
        invariant
            i <= v.len(),
            cands_view(r@) == cands_view(v@).take(i as int),
        decreases v.len() - i,
    {
        let ghost before = cands_view(r@);
        let d = v[i].duplicate();
        r.push(d);
        assert(cands_view(r@) =~= before.push(v@[i as int]@));
        i = i + 1;
        assert(cands_view(r@) =~= cands_view(v@).take(i as int));
    }
    assert(cands_view(v@).take(v.len() as int) =~= cands_view(v@));
    r
}

impl InputState {
    /// A copy of the state.
    pub fn duplicate(&self) -> (r: InputState)
        ensures
            r@ == self@,
    {
        InputState {
            preedit: self.preedit.clone(),
            cursor_pos: self.cursor_pos,
            candidates: duplicate_cands(&self.candidates),
            current_page: self.current_page,
            selected_index: self.selected_index,
            context: self.context.clone(),
            is_active: self.is_active,
            commit_text: self.commit_text.clone(),
        }
    }
}

/// Finds the first candidate with text `t`.
fn find_text(cs: &Vec<Candidate>, t: &String) -> (r: Option<usize>)
    ensures
        match r {
            Some(i) => i < cs@.len() && text_index(cands_view(cs@), t@) == i,
            None => text_index(cands_view(cs@), t@) < 0,
        },
{
    let ghost cv = cands_view(cs@);
    let mut i: usize = 0;
    while i < cs.len()
        invariant
            i <= cs.len(),
            cv == cands_view(cs@),
            forall|j: int| 0 <= j < i ==> !has_text_pred(t@)(#[trigger] cv[j]),
        decreases cs.len() - i,
    {
        assert(cv[i as int] == cs@[i as int]@);
        if cs[i].text == *t {
            proof {
                lemma_find_first_at(cv, has_text_pred(t@), i as int);
            }
            return Some(i);
        }
        i = i + 1;
    }
    proof {
        lemma_find_first_none(cv, has_text_pred(t@));
    }
    None
}

// ---------------------------------------------------------------------
// Candidate sources
// ---------------------------------------------------------------------

/// Dictionary entries as candidates scored frequency/100.
pub open spec fn dict_cands(es: Seq<EntryView>) -> Seq<CandView> {
    es.map_values(|e: EntryView| entry_cand(e, e.frequency * 100, PredictionSource::Dictionary))
}

/// Built-in characters of a syllable as candidates: the n-th (from 0)
/// scores 100 - 10n.
pub open spec fn builtin_cands(syl: Seq<char>, chars: Seq<char>) -> Seq<CandView> {
    Seq::new(
        chars.len(),
        |n: int| CandView {
            text: seq![chars[n]],
            pinyin: syl,
            score: (100 - 10 * n) * 10000,
            source: PredictionSource::Dictionary,
        },
    )
}

/// Adds entries whose word is not yet a candidate, each with its
/// frequency times `scale` as score.
pub open spec fn add_unique_entries(cs: Seq<CandView>, es: Seq<EntryView>, scale: int, source: PredictionSource) -> Seq<CandView>
    decreases es.len(),
{
    if es.len() == 0 {
        cs
    } else {
        let acc = add_unique_entries(cs, es.drop_last(), scale, source);
        let e = es.last();
        if has_text(acc, e.word) { acc } else { acc.push(entry_cand(e, e.frequency * scale, source)) }
    }
}

/// Adds the entries of each fuzzy variant other than the syllable itself
/// (score frequency/1000, source fuzzy match).
pub open spec fn add_fuzzy(cs: Seq<CandView>, p: Seq<char>, variants: Seq<Seq<char>>, user: TableView, system: TableView) -> Seq<CandView>
    decreases variants.len(),
{
    if variants.len() == 0 {
        cs
    } else {
        let acc = add_fuzzy(cs, p, variants.drop_last(), user, system);
        let v = variants.last();
        if v == p { acc } else { add_unique_entries(acc, spec_lookup(user, system, v), 10, PredictionSource::FuzzyMatch) }
    }
}

/// `r` is `cs` followed by candidates each of whose texts is new: not
/// among the candidates before it.
pub open spec fn extends_with_new_texts(cs: Seq<CandView>, r: Seq<CandView>) -> bool {
    &&& cs.len() <= r.len()
    &&& r.take(cs.len() as int) == cs
    &&& forall|i: int| cs.len() <= i < r.len() ==> !has_text(r.take(i), #[trigger] r[i].text)
}

/// No text appears twice.
pub open spec fn distinct_texts(cs: Seq<CandView>) -> bool {
    forall|i: int, j: int| 0 <= i < j < cs.len() ==> cs[i].text != cs[j].text
}

/// A text held by some candidate is found.
proof fn lemma_has_text_at(cs: Seq<CandView>, k: int)
    requires
        0 <= k < cs.len(),
    ensures
        has_text(cs, cs[k].text),
{
    lemma_find_first(cs, has_text_pred(cs[k].text));
    if text_index(cs, cs[k].text) < 0 {
        assert(!has_text_pred(cs[k].text)(cs[k]));
    }
}

proof fn lemma_extends_push(acc: Seq<CandView>, c: CandView)
    requires
        !has_text(acc, c.text),
    ensures
        extends_with_new_texts(acc, acc.push(c)),
{
    assert(acc.push(c).take(acc.len() as int) =~= acc);
}

proof fn lemma_extends_trans(a: Seq<CandView>, b: Seq<CandView>, c: Seq<CandView>)
    requires
        extends_with_new_texts(a, b),
        extends_with_new_texts(b, c),
    ensures
        extends_with_new_texts(a, c),
{
    assert(c.take(a.len() as int) =~= c.take(b.len() as int).take(a.len() as int));
    assert forall|i: int| a.len() <= i < c.len() implies !has_text(c.take(i), #[trigger] c[i].text) by {
        if i < b.len() {
            assert(c.take(i) =~= b.take(i));
            assert(c[i] == b[i]);
        }
    }
}

proof fn lemma_add_unique_extends(cs: Seq<CandView>, es: Seq<EntryView>, scale: int, source: PredictionSource)
    ensures
        extends_with_new_texts(cs, add_unique_entries(cs, es, scale, source)),
    decreases es.len(),
{
    if es.len() == 0 {
        assert(cs.take(cs.len() as int) =~= cs);
    } else {
        lemma_add_unique_extends(cs, es.drop_last(), scale, source);
        let acc = add_unique_entries(cs, es.drop_last(), scale, source);
        let e = es.last();
        if !has_text(acc, e.word) {
            lemma_extends_push(acc, entry_cand(e, e.frequency * scale, source));
            lemma_extends_trans(cs, acc, acc.push(entry_cand(e, e.frequency * scale, source)));
        }
    }
}

/// Fuzzy candidates are added only for words not yet among the
/// candidates: the list grows by candidates whose texts are each new, so
/// a list without repeated texts stays without them.
pub proof fn lemma_fuzzy_adds_new_texts(cs: Seq<CandView>, p: Seq<char>, variants: Seq<Seq<char>>, user: TableView, system: TableView)
    ensures
        extends_with_new_texts(cs, add_fuzzy(cs, p, variants, user, system)),
        distinct_texts(cs) ==> distinct_texts(add_fuzzy(cs, p, variants, user, system)),
    decreases variants.len(),
{
    if variants.len() == 0 {
        assert(cs.take(cs.len() as int) =~= cs);
    } else {
        lemma_fuzzy_adds_new_texts(cs, p, variants.drop_last(), user, system);
        let acc = add_fuzzy(cs, p, variants.drop_last(), user, system);
        let v = variants.last();
        if v != p {
            lemma_add_unique_extends(acc, spec_lookup(user, system, v), 10, PredictionSource::FuzzyMatch);
            lemma_extends_trans(cs, acc, add_fuzzy(cs, p, variants, user, system));
        }
    }
    lemma_extends_keeps_distinct(cs, add_fuzzy(cs, p, variants, user, system));
}

/// Growing a list by new texts keeps its texts distinct.
pub proof fn lemma_extends_keeps_distinct(cs: Seq<CandView>, r: Seq<CandView>)
    requires
        extends_with_new_texts(cs, r),
    ensures
        distinct_texts(cs) ==> distinct_texts(r),
{
    if distinct_texts(cs) {
        assert forall|i: int, j: int| 0 <= i < j < r.len() implies r[i].text != r[j].text by {
            if j < cs.len() {
                assert(r[i] == cs[i] && r[j] == cs[j]) by {
                    assert(r.take(cs.len() as int)[i] == r[i]);
                    assert(r.take(cs.len() as int)[j] == r[j]);
                }
            } else {
                assert(!has_text(r.take(j), r[j].text));
                if r[i].text == r[j].text {
                    assert(r.take(j)[i] == r[i]);
                    lemma_has_text_at(r.take(j), i);
                }
            }
        }
    }
}

/// Adds the predictions whose text is not yet a candidate, scored at
/// nine tenths of their confidence.
pub open spec fn add_ai(cs: Seq<CandView>, preedit: Seq<char>, preds: Seq<PredictionView>) -> Seq<CandView>
    decreases preds.len(),
{
    if preds.len() == 0 {
        cs
    } else {
        let acc = add_ai(cs, preedit, preds.drop_last());
        let p = preds.last();
        if has_text(acc, p.text) {
            acc
        } else {
            acc.push(CandView { text: p.text, pinyin: preedit, score: p.confidence_milli * 9, source: p.source })
        }
    }
}

/// Predictions are added only for texts not yet among the candidates, so
/// every candidate text stays, at its score.
pub proof fn lemma_add_ai_keeps(cs: Seq<CandView>, preedit: Seq<char>, preds: Seq<PredictionView>)
    ensures
        keeps_texts(cs, add_ai(cs, preedit, preds)),
        extends_with_new_texts(cs, add_ai(cs, preedit, preds)),
    decreases preds.len(),
{
    if preds.len() == 0 {
        lemma_keeps_refl(cs);
        assert(cs.take(cs.len() as int) =~= cs);
    } else {
        lemma_add_ai_keeps(cs, preedit, preds.drop_last());
        let acc = add_ai(cs, preedit, preds.drop_last());
        let p = preds.last();
        let c = CandView { text: p.text, pinyin: preedit, score: p.confidence_milli * 9, source: p.source };
        lemma_push_if_new_keeps(acc, c);
        lemma_keeps_trans(cs, acc, add_ai(cs, preedit, preds));
        if !has_text(acc, c.text) {
            lemma_extends_push(acc, c);
            lemma_extends_trans(cs, acc, acc.push(c));
        }
    }
}

/// Inserts `c` into a list sorted by descending score, after every
/// candidate scoring at least as high.
pub open spec fn insert_by_score(sorted: Seq<CandView>, c: CandView) -> Seq<CandView> {
    let p = find_first(sorted, |x: CandView| x.score < c.score);
    if p < 0 { sorted.push(c) } else { sorted.insert(p, c) }
}

/// Stable sort by descending score.
pub open spec fn sort_by_score(s: Seq<CandView>) -> Seq<CandView>
    decreases s.len(),
{
    if s.len() == 0 { s } else { insert_by_score(sort_by_score(s.drop_last()), s.last()) }
}

/// Ordered by non-increasing score.
pub open spec fn score_sorted(s: Seq<CandView>) -> bool {
    forall|i: int, j: int| 0 <= i < j < s.len() ==> s[i].score >= s[j].score
}

proof fn lemma_insert_by_score(sorted: Seq<CandView>, c: CandView)
    requires
        score_sorted(sorted),
    ensures
        score_sorted(insert_by_score(sorted, c)),
        insert_by_score(sorted, c).to_multiset() == sorted.to_multiset().insert(c),
{
    let pred = |x: CandView| x.score < c.score;
    lemma_find_first(sorted, pred);
    let p = find_first(sorted, pred);
    let r = insert_by_score(sorted, c);
    if p < 0 {
        vstd::seq_lib::to_multiset_build(sorted, c);
        assert forall|i: int, j: int| 0 <= i < j < r.len() implies r[i].score >= r[j].score by {
            if j == r.len() - 1 {
                assert(!pred(sorted[i]));
            }
        }
    } else {
        vstd::seq_lib::to_multiset_insert(sorted, p, c);
        assert forall|i: int, j: int| 0 <= i < j < r.len() implies r[i].score >= r[j].score by {
            if i < p && j == p {
                assert(!pred(sorted[i]));
            } else if i == p && j > p {
                assert(pred(sorted[p]));
                assert(sorted[p].score >= sorted[j - 1].score || j - 1 == p);
            } else if i < p && j > p {
                assert(sorted[i].score >= sorted[j - 1].score);
            } else if i > p {
                assert(sorted[i - 1].score >= sorted[j - 1].score);
            }
        }
    }
}

/// The stable score sort yields a list ordered by non-increasing score
/// that holds exactly the input candidates.
pub proof fn lemma_sort_by_score(s: Seq<CandView>)
    ensures
        score_sorted(sort_by_score(s)),
        sort_by_score(s).to_multiset() == s.to_multiset(),
    decreases s.len(),
{
    if s.len() > 0 {
        lemma_sort_by_score(s.drop_last());
        lemma_insert_by_score(sort_by_score(s.drop_last()), s.last());
        vstd::seq_lib::to_multiset_build(s.drop_last(), s.last());
        assert(s =~= s.drop_last().push(s.last()));
    }
}

/// The first `n` candidates (all when there are fewer).
pub open spec fn take_at_most<T>(s: Seq<T>, n: int) -> Seq<T> {
    if s.len() <= n { s } else { s.take(n) }
}


/// Concatenation of two character sequences.
pub fn concat_chars(a: &[char], b: &[char]) -> (r: Vec<char>)
    ensures
        r@ == a@ + b@,
{
    let mut r = copy_chars(a);
    let mut i: usize = 0;
    while i < b.len()
        invariant
            i <= b.len(),
            r@ == a@ + b@.take(i as int),
        decreases b.len() - i,
    {
        r.push(b[i]);
        i = i + 1;
        assert(r@ =~= a@ + b@.take(i as int));
    }
    assert(b@.take(b.len() as int) =~= b@);
    r
}

/// Looks up a key given as characters.
pub(crate) fn lookup_key(dict: &Dictionary, key: &[char]) -> (r: Vec<DictEntry>)
    ensures
        entries_view(r@) == spec_lookup(dict.user(), dict.system(), key@),
{
    let k = string_from_chars(key);
    dict.lookup(k.as_str())
}

/// Appends the candidates of dictionary entries scored frequency/100.
pub(crate) fn push_dict_cands(cs: &mut Vec<Candidate>, es: &Vec<DictEntry>)
    ensures
        cands_view(final(cs)@) == cands_view(old(cs)@) + dict_cands(entries_view(es@)),
{
    let ghost c0 = cands_view(cs@);
    let ghost ev = entries_view(es@);
    let mut i: usize = 0;
    while i < es.len()
        invariant
            i <= es.len(),
            ev == entries_view(es@),
            cands_view(cs@) == c0 + dict_cands(ev.take(i as int)),
        decreases es.len() - i,
    {
        let e = &es[i];
        assert(ev[i as int] == e@);
        let ghost before = cands_view(cs@);
        cs.push(Candidate {
            text: e.word.clone(),
            pinyin: e.pinyin.clone(),
            score: (e.frequency as i128) * 100,
            source: PredictionSource::Dictionary,
        });
        assert(cands_view(cs@) =~= before.push(entry_cand(e@, e@.frequency * 100, PredictionSource::Dictionary)));
        assert(dict_cands(ev.take(i + 1)) =~= dict_cands(ev.take(i as int)).push(
            entry_cand(e@, e@.frequency * 100, PredictionSource::Dictionary),
        ));
        i = i + 1;
        assert(cands_view(cs@) =~= c0 + dict_cands(ev.take(i as int)));
    }
    assert(ev.take(es.len() as int) =~= ev);
}

/// Appends the built-in characters of a syllable as candidates.
pub(crate) fn push_builtin_cands(cs: &mut Vec<Candidate>, syl: &[char], chars: &Vec<char>)
    ensures
        cands_view(final(cs)@) == cands_view(old(cs)@) + builtin_cands(syl@, chars@),
{
    let ghost c0 = cands_view(cs@);
    let mut i: usize = 0;
    while i < chars.len()
        invariant
            i <= chars.len(),
            cands_view(cs@) == c0 + builtin_cands(syl@, chars@).take(i as int),
        decreases chars.len() - i,
    {
        let mut one: Vec<char> = Vec::new();
        one.push(chars[i]);
        assert(one@ =~= seq![chars@[i as int]]);
        let score: i128 = (100 - 10 * (i as i128)) * 10000;
        let ghost before = cands_view(cs@);
        cs.push(Candidate {
            text: string_from_chars(one.as_slice()),
            pinyin: string_from_chars(syl),
            score,
            source: PredictionSource::Dictionary,
        });
        assert(cands_view(cs@) =~= before.push(builtin_cands(syl@, chars@)[i as int]));
        i = i + 1;
        assert(cands_view(cs@) =~= c0 + builtin_cands(syl@, chars@).take(i as int));
    }
    assert(builtin_cands(syl@, chars@).take(chars.len() as int) =~= builtin_cands(syl@, chars@));
}

/// Appends the entries whose word is not yet a candidate.
fn push_unique_entries(cs: &mut Vec<Candidate>, es: &Vec<DictEntry>, scale: i128, source: PredictionSource)
    requires
        1 <= scale <= 100,
    ensures
        cands_view(final(cs)@) == add_unique_entries(cands_view(old(cs)@), entries_view(es@), scale as int, source),
{
    let ghost c0 = cands_view(cs@);
    let ghost ev = entries_view(es@);
    let mut i: usize = 0;
    while i < es.len()
        invariant
            i <= es.len(),
            1 <= scale <= 100,
            ev == entries_view(es@),
            cands_view(cs@) == add_unique_entries(c0, ev.take(i as int), scale as int, source),
        decreases es.len() - i,
    {
        let e = &es[i];
        assert(ev[i as int] == e@);
        proof {
            assert(ev.take(i + 1).drop_last() =~= ev.take(i as int));
        }
        match find_text(cs, &e.word) {
            Some(_) => {}
            None => {
                let ghost before = cands_view(cs@);
                assert((e.frequency as i128) * scale <= 0x1_0000_0000_0000_0000 * 100) by (nonlinear_arith)
                    requires
                        1 <= scale <= 100,
                        0 <= e.frequency < 0x1_0000_0000_0000_0000,
                ;
                cs.push(Candidate {
                    text: e.word.clone(),
                    pinyin: e.pinyin.clone(),
                    score: (e.frequency as i128) * scale,
                    source,
                });
                assert(cands_view(cs@) =~= before.push(entry_cand(e@, e@.frequency * scale, source)));
            }
        }
        i = i + 1;
    }
    assert(ev.take(es.len() as int) =~= ev);
}

/// Appends the predictions whose text is not yet a candidate.
pub fn push_ai_cands(cs: &mut Vec<Candidate>, preedit: &String, preds: &Vec<PredictionResult>)
    ensures
        cands_view(final(cs)@) == add_ai(cands_view(old(cs)@), preedit@, predictions_view(preds@)),
{
    let ghost c0 = cands_view(cs@);
    let ghost pv = predictions_view(preds@);
    let mut i: usize = 0;
    while i < preds.len()
        invariant
            i <= preds.len(),
            pv == predictions_view(preds@),
            cands_view(cs@) == add_ai(c0, preedit@, pv.take(i as int)),
        decreases preds.len() - i,
    {
        let p = &preds[i];
        assert(pv[i as int] == p@);
        proof {
            assert(pv.take(i + 1).drop_last() =~= pv.take(i as int));
        }
        match find_text(cs, &p.text) {
            Some(_) => {}
            None => {
                let ghost before = cands_view(cs@);
                cs.push(Candidate { text: p.text.clone(), pinyin: preedit.clone(), score: (p.confidence_milli as i128) * 9, source: p.source });
                assert(cands_view(cs@) =~= before.push(
                    CandView { text: p@.text, pinyin: preedit@, score: p@.confidence_milli * 9, source: p@.source },
                ));
            }
        }
        i = i + 1;
    }
    assert(pv.take(preds.len() as int) =~= pv);
}

/// Sorts candidates by descending score, keeping the order of equal
/// scores.
pub(crate) fn sort_cands_by_score(v: &Vec<Candidate>) -> (r: Vec<Candidate>)
    ensures
        cands_view(r@) == sort_by_score(cands_view(v@)),
{
    let ghost vv = cands_view(v@);
    let mut out: Vec<Candidate> = Vec::new();
    let mut i: usize = 0;
    while i < v.len()
        invariant
            i <= v.len(),
            vv == cands_view(v@),
            cands_view(out@) == sort_by_score(vv.take(i as int)),
        decreases v.len() - i,
    {
        let c = v[i].duplicate();
        let ghost sorted = cands_view(out@);
        let ghost pred = |x: CandView| x.score < c@.score;
        let mut p: usize = 0;
        while p < out.len()
            invariant
                p <= out.len(),
                sorted == cands_view(out@),
                pred == (|x: CandView| x.score < c@.score),
                forall|j: int| 0 <= j < p ==> !pred(#[trigger] sorted[j]),
            ensures
                p == out.len() || pred(sorted[p as int]),
            decreases out.len() - p,
        {
            assert(sorted[p as int] == out@[p as int]@);
            if out[p].score < c.score {
                assert(pred(sorted[p as int]));
                break;
            }
            p = p + 1;
        }
        proof {
            assert(vv.take(i + 1).drop_last() =~= vv.take(i as int));
            assert(vv.take(i + 1).last() == c@);
        }
        if p < out.len() {
            proof {
                lemma_find_first_at(sorted, pred, p as int);
            }
            out.insert(p, c);
            assert(cands_view(out@) =~= sorted.insert(p as int, c@));
        } else {
            proof {
                lemma_find_first_none(sorted, pred);
            }
            out.push(c);
            assert(cands_view(out@) =~= sorted.push(c@));
        }
        i = i + 1;
    }
    assert(vv.take(v.len() as int) =~= vv);
    out
}


// ---------------------------------------------------------------------
// Fuzzy candidates
// ---------------------------------------------------------------------

/// Appends the entries of each fuzzy variant of `syl` other than `syl`.
pub(crate) fn push_fuzzy_cands(cs: &mut Vec<Candidate>, dict: &Dictionary, matcher: &FuzzyPinyinMatcher, syl: &[char])
    ensures
        cands_view(final(cs)@) == add_fuzzy(cands_view(old(cs)@), syl@, fuzzy_matches(syl@), dict.user(), dict.system()),
{
    let variants = matcher.fuzzy_chars(syl);
    let ghost vs = seqs_view(variants@);
    let ghost c0 = cands_view(cs@);
    let mut i: usize = 0;
    while i < variants.len()
        invariant
            i <= variants.len(),
            vs == seqs_view(variants@),
            vs == fuzzy_matches(syl@),
            cands_view(cs@) == add_fuzzy(c0, syl@, vs.take(i as int), dict.user(), dict.system()),
        decreases variants.len() - i,
    {
        let v = &variants[i];
        assert(vs[i as int] == v@);
        proof {
            assert(vs.take(i + 1).drop_last() =~= vs.take(i as int));
        }
        if !same_chars(v.as_slice(), syl) {
            let es = lookup_key(dict, v.as_slice());
            push_unique_entries(cs, &es, 10, PredictionSource::FuzzyMatch);
        }
        i = i + 1;
    }
    assert(vs.take(variants.len() as int) =~= vs);
}

// ---------------------------------------------------------------------
// Phrase candidates
// ---------------------------------------------------------------------

/// Syllables joined with spaces.
pub open spec fn join_spaced(syls: Seq<Seq<char>>) -> Seq<char>
    decreases syls.len(),
{
    if syls.len() == 0 {
        Seq::empty()
    } else if syls.len() == 1 {
        syls[0]
    } else {
        join_spaced(syls.drop_last()) + seq![' '] + syls.last()
    }
}

/// Syllables joined without separator.
pub open spec fn join_plain(syls: Seq<Seq<char>>) -> Seq<char>
    decreases syls.len(),
{
    if syls.len() == 0 { Seq::empty() } else { join_plain(syls.drop_last()) + syls.last() }
}

/// Score of a complete phrase found in the dictionary: 100 + frequency/100.
pub open spec fn phrase_score(e: EntryView) -> int {
    1_000_000 + e.frequency * 100
}

/// Phrases found under the spaced key: a phrase already among the
/// candidates takes the phrase score, another is appended.
pub open spec fn upsert_phrases(cs: Seq<CandView>, es: Seq<EntryView>) -> Seq<CandView>
    decreases es.len(),
{
    if es.len() == 0 {
        cs
    } else {
        let acc = upsert_phrases(cs, es.drop_last());
        let e = es.last();
        let j = text_index(acc, e.word);
        if j < 0 {
            acc.push(entry_cand(e, phrase_score(e), PredictionSource::Dictionary))
        } else {
            acc.update(j, CandView { score: phrase_score(e), source: PredictionSource::Dictionary, ..acc[j] })
        }
    }
}

/// Phrases found under the plain key: a phrase already among the
/// candidates takes the phrase score when it is higher, another is
/// appended.
pub open spec fn upsert_phrases_if_higher(cs: Seq<CandView>, es: Seq<EntryView>) -> Seq<CandView>
    decreases es.len(),
{
    if es.len() == 0 {
        cs
    } else {
        let acc = upsert_phrases_if_higher(cs, es.drop_last());
        let e = es.last();
        let j = text_index(acc, e.word);
        if j < 0 {
            acc.push(entry_cand(e, phrase_score(e), PredictionSource::Dictionary))
        } else if phrase_score(e) > acc[j].score {
            acc.update(j, CandView { score: phrase_score(e), source: PredictionSource::Dictionary, ..acc[j] })
        } else {
            acc
        }
    }
}

/// Score of the `ci`-th character of the `si`-th syllable:
/// 30 - 10 si + (5 - ci) / 2 + frequency/200.
pub open spec fn syllable_char_score(si: int, ci: int, e: EntryView) -> int {
    300_000 - si * 100_000 + (5 - ci) * 5000 + e.frequency * 50
}

/// The top five characters of syllable `si`, each appended when its word
/// is not yet a candidate.
pub open spec fn add_syllable_chars(cs: Seq<CandView>, es: Seq<EntryView>, si: int) -> Seq<CandView>
    decreases es.len(),
{
    if es.len() == 0 {
        cs
    } else {
        let acc = add_syllable_chars(cs, es.drop_last(), si);
        let e = es.last();
        let ci = es.len() - 1;
        if has_text(acc, e.word) {
            acc
        } else {
            acc.push(entry_cand(e, syllable_char_score(si, ci, e), PredictionSource::Dictionary))
        }
    }
}

/// The characters of every syllable, syllable by syllable.
pub open spec fn add_all_syllable_chars(cs: Seq<CandView>, syls: Seq<Seq<char>>, user: TableView, system: TableView) -> Seq<CandView>
    decreases syls.len(),
{
    if syls.len() == 0 {
        cs
    } else {
        let acc = add_all_syllable_chars(cs, syls.drop_last(), user, system);
        add_syllable_chars(acc, take_at_most(spec_lookup(user, system, syls.last()), 5), syls.len() - 1)
    }
}

/// Joins character vectors with an optional separator.
fn join_exec(syls: &Vec<Vec<char>>, spaced: bool) -> (r: Vec<char>)
    ensures
        r@ == (if spaced { join_spaced(seqs_view(syls@)) } else { join_plain(seqs_view(syls@)) }),
{
    let ghost sv = seqs_view(syls@);
    let mut r: Vec<char> = Vec::new();
    let mut i: usize = 0;
    while i < syls.len()
        invariant
            i <= syls.len(),
            sv == seqs_view(syls@),
            r@ == (if spaced { join_spaced(sv.take(i as int)) } else { join_plain(sv.take(i as int)) }),
        decreases syls.len() - i,
    {
        assert(sv[i as int] == syls@[i as int]@);
        proof {
            assert(sv.take(i + 1).drop_last() =~= sv.take(i as int));
        }
        if spaced && i > 0 {
            r.push(' ');
        }
        let ghost before = r@;
        let mut j: usize = 0;
        while j < syls[i].len()
            invariant
                i < syls.len(),
                j <= syls@[i as int].len(),
                r@ == before + syls@[i as int]@.take(j as int),
            decreases syls@[i as int].len() - j,
        {
            r.push(syls[i][j]);
            j = j + 1;
            assert(r@ =~= before + syls@[i as int]@.take(j as int));
        }
        assert(syls@[i as int]@.take(syls@[i as int]@.len() as int) =~= syls@[i as int]@);
        proof {
            if spaced && i == 0 {
                assert(sv.take(1) =~= seq![sv[0]]);
                assert(r@ =~= sv[0]);
            } else if spaced {
            } else {
                if i == 0 {
                    assert(join_plain(sv.take(0)) =~= Seq::<char>::empty());
                }
            }
        }
        i = i + 1;
        assert(r@ =~= (if spaced { join_spaced(sv.take(i as int)) } else { join_plain(sv.take(i as int)) }));
    }
    assert(sv.take(syls.len() as int) =~= sv);
    r
}

/// Phrases from the dictionary under a key.
fn push_phrases(cs: &mut Vec<Candidate>, es: &Vec<DictEntry>, only_if_higher: bool)
    ensures
        cands_view(final(cs)@) == (if only_if_higher {
            upsert_phrases_if_higher(cands_view(old(cs)@), entries_view(es@))
        } else {
            upsert_phrases(cands_view(old(cs)@), entries_view(es@))
        }),
{
    let ghost c0 = cands_view(cs@);
    let ghost ev = entries_view(es@);
    let mut i: usize = 0;
    while i < es.len()
        invariant
            i <= es.len(),
            ev == entries_view(es@),
            cands_view(cs@) == (if only_if_higher {
                upsert_phrases_if_higher(c0, ev.take(i as int))
            } else {
                upsert_phrases(c0, ev.take(i as int))
            }),
        decreases es.len() - i,
    {
        let e = &es[i];
        assert(ev[i as int] == e@);
        proof {
            assert(ev.take(i + 1).drop_last() =~= ev.take(i as int));
        }
        let score: i128 = 1_000_000 + (e.frequency as i128) * 100;
        let ghost acc = cands_view(cs@);
        match find_text(cs, &e.word) {
            Some(j) => {
                if !only_if_higher || score > cs[j].score {
                    let mut c = cs[j].duplicate();
                    c.score = score;
                    c.source = PredictionSource::Dictionary;
                    cs.set(j, c);
                    assert(cands_view(cs@) =~= acc.update(
                        j as int,
                        CandView { score: phrase_score(e@), source: PredictionSource::Dictionary, ..acc[j as int] },
                    ));
                }
            }
            None => {
                cs.push(Candidate {
                    text: e.word.clone(),
                    pinyin: e.pinyin.clone(),
                    score,
                    source: PredictionSource::Dictionary,
                });
                assert(cands_view(cs@) =~= acc.push(entry_cand(e@, phrase_score(e@), PredictionSource::Dictionary)));
            }
        }
        i = i + 1;
    }
    assert(ev.take(es.len() as int) =~= ev);
}

/// The top five characters of one syllable.
fn push_syllable_chars(cs: &mut Vec<Candidate>, es: &Vec<DictEntry>, si: usize)
    ensures
        cands_view(final(cs)@) == add_syllable_chars(cands_view(old(cs)@), take_at_most(entries_view(es@), 5), si as int),
{
    let ghost c0 = cands_view(cs@);
    let ghost ev = take_at_most(entries_view(es@), 5);
    let n: usize = if es.len() < 5 { es.len() } else { 5 };
    assert(ev.len() == n);
    let mut i: usize = 0;
    while i < n
        invariant
            i <= n <= 5,
            n <= es.len(),
            ev == take_at_most(entries_view(es@), 5),
            ev.len() == n,
            cands_view(cs@) == add_syllable_chars(c0, ev.take(i as int), si as int),
        decreases n - i,
    {
        let e = &es[i];
        assert(ev[i as int] == e@);
        proof {
            assert(ev.take(i + 1).drop_last() =~= ev.take(i as int));
        }
        match find_text(cs, &e.word) {
            Some(_) => {}
            None => {
                let ghost acc = cands_view(cs@);
                let score: i128 = 300_000 - (si as i128) * 100_000 + (5 - (i as i128)) * 5000 + (e.frequency as i128) * 50;
                cs.push(Candidate {
                    text: e.word.clone(),
                    pinyin: e.pinyin.clone(),
                    score,
                    source: PredictionSource::Dictionary,
                });
                assert(cands_view(cs@) =~= acc.push(
                    entry_cand(e@, syllable_char_score(si as int, i as int, e@), PredictionSource::Dictionary),
                ));
            }
        }
        i = i + 1;
    }
    assert(ev.take(n as int) =~= ev);
}


// ---------------------------------------------------------------------
// Combinations of syllable characters
// ---------------------------------------------------------------------

/// The words to combine for one syllable, with their frequencies: the top
/// ten dictionary entries, or when the dictionary has none the top ten
/// built-in characters (see `builtin_chars`) with frequencies 100, 90, 80, ...
pub open spec fn syllable_options(user: TableView, system: TableView, syl: Seq<char>) -> Seq<(Seq<char>, int)> {
    let es = spec_lookup(user, system, syl);
    if es.len() == 0 {
        let cs = take_at_most(builtin_chars(builtin_rows(), syl), 10);
        Seq::new(cs.len(), |n: int| (seq![cs[n]], 100 - 10 * n))
    } else {
        take_at_most(es, 10).map_values(|e: EntryView| (e.word, e.frequency as int))
    }
}

/// Every way to put one of the first `m` words of `first` before each of
/// the `rest` combinations, in order: text, frequency sum, position sum.
pub open spec fn combo_rows(first: Seq<(Seq<char>, int)>, m: int, rest: Seq<(Seq<char>, int, int)>) -> Seq<(Seq<char>, int, int)>
    decreases m,
{
    if m <= 0 {
        Seq::empty()
    } else {
        combo_rows(first, m - 1, rest) + rest.map_values(
            |c: (Seq<char>, int, int)| (first[m - 1].0 + c.0, first[m - 1].1 + c.1, (m - 1) + c.2),
        )
    }
}

/// All combinations of the first two options of every syllable, in
/// lexicographic order of the positions.
pub open spec fn combos(opts: Seq<Seq<(Seq<char>, int)>>) -> Seq<(Seq<char>, int, int)>
    decreases opts.len(),
{
    if opts.len() == 0 {
        seq![(Seq::<char>::empty(), 0int, 0int)]
    } else {
        let m = if opts[0].len() < 2 { opts[0].len() as int } else { 2 };
        combo_rows(opts[0], m, combos(opts.drop_first()))
    }
}

/// Position penalty per step, by number of syllables: 0.05, 0.04, 0.03.
pub open spec fn combo_penalty(n: int) -> int {
    if n == 2 { 500 } else if n == 3 { 400 } else { 300 }
}

/// Appends combinations whose text is not yet a candidate, scored
/// 50 + frequency sum/1000 - penalty * position sum.
pub open spec fn add_combinations(cs: Seq<CandView>, cbs: Seq<(Seq<char>, int, int)>, pinyin: Seq<char>, pen: int) -> Seq<CandView>
    decreases cbs.len(),
{
    if cbs.len() == 0 {
        cs
    } else {
        let acc = add_combinations(cs, cbs.drop_last(), pinyin, pen);
        let c = cbs.last();
        if has_text(acc, c.0) {
            acc
        } else {
            acc.push(CandView { text: c.0, pinyin, score: 500_000 + c.1 * 10 - c.2 * pen, source: PredictionSource::Dictionary })
        }
    }
}

/// The options of each syllable.
pub open spec fn all_options(user: TableView, system: TableView, syls: Seq<Seq<char>>) -> Seq<Seq<(Seq<char>, int)>> {
    Seq::new(syls.len(), |k: int| syllable_options(user, system, syls[k]))
}

/// What `generate_combinations` adds: for two to four syllables that all
/// have options, the first ten combinations.
pub open spec fn generate_combinations(cs: Seq<CandView>, syls: Seq<Seq<char>>, user: TableView, system: TableView) -> Seq<CandView> {
    let n = syls.len() as int;
    let opts = all_options(user, system, syls);
    if 2 <= n <= 4 && forall|k: int| 0 <= k < n ==> (#[trigger] opts[k]).len() > 0 {
        add_combinations(cs, take_at_most(combos(opts), 10), join_plain(syls), combo_penalty(n))
    } else {
        cs
    }
}

/// The view of options held as vectors.
pub open spec fn options_view(v: Seq<(Vec<char>, i128)>) -> Seq<(Seq<char>, int)> {
    v.map_values(|o: (Vec<char>, i128)| (o.0@, o.1 as int))
}

/// The view of combinations held as vectors.
pub open spec fn combos_view(v: Seq<(Vec<char>, i128, i128)>) -> Seq<(Seq<char>, int, int)> {
    v.map_values(|c: (Vec<char>, i128, i128)| (c.0@, c.1 as int, c.2 as int))
}

/// Bound on every option frequency (below 2^64).
pub open spec fn options_bounded(v: Seq<(Seq<char>, int)>) -> bool {
    forall|i: int| 0 <= i < v.len() ==> 0 <= #[trigger] v[i].1 < 0x1_0000_0000_0000_0000
}

/// Combination sums stay within the bounds of `k` options.
pub open spec fn combos_bounded(v: Seq<(Seq<char>, int, int)>, k: int) -> bool {
    forall|i: int| 0 <= i < v.len() ==> {
        &&& 0 <= (#[trigger] v[i]).1 <= k * 0x1_0000_0000_0000_0000
        &&& 0 <= v[i].2 <= k
    }
}

/// The options of one syllable.
fn syllable_options_exec(dict: &Dictionary, builtin: &Vec<(Vec<char>, Vec<char>)>, syl: &[char]) -> (r: Vec<(Vec<char>, i128)>)
    requires
        rows_view(builtin@) == builtin_rows(),
    ensures
        options_view(r@) == syllable_options(dict.user(), dict.system(), syl@),
        options_bounded(options_view(r@)),
{
    let es = lookup_key(dict, syl);
    let mut r: Vec<(Vec<char>, i128)> = Vec::new();
    if es.len() == 0 {
        let chars = builtin_chars_in(builtin, syl);
        let ghost cs = take_at_most(chars@, 10);
        let n: usize = if chars.len() < 10 { chars.len() } else { 10 };
        let mut i: usize = 0;
        while i < n
            invariant
                i <= n <= 10,
                n <= chars.len(),
                cs == take_at_most(chars@, 10),
                cs.len() == n,
                options_view(r@) == Seq::new(cs.len(), |k: int| (seq![cs[k]], 100 - 10 * k)).take(i as int),
                options_bounded(options_view(r@)),
            decreases n - i,
        {
            let mut one: Vec<char> = Vec::new();
            one.push(chars[i]);
            assert(one@ =~= seq![cs[i as int]]);
            let ghost before = options_view(r@);
            r.push((one, 100 - 10 * (i as i128)));
            assert(options_view(r@) =~= before.push((seq![cs[i as int]], 100 - 10 * i)));
            assert(Seq::new(cs.len(), |k: int| (seq![cs[k]], 100 - 10 * k))[i as int] == (seq![cs[i as int]], 100 - 10 * i));
            i = i + 1;
            assert(options_view(r@) =~= Seq::new(cs.len(), |k: int| (seq![cs[k]], 100 - 10 * k)).take(i as int));
        }
        assert(Seq::new(cs.len(), |k: int| (seq![cs[k]], 100 - 10 * k)).take(n as int)
            =~= Seq::new(cs.len(), |k: int| (seq![cs[k]], 100 - 10 * k)));
    } else {
        let ghost ev = take_at_most(entries_view(es@), 10);
        let n: usize = if es.len() < 10 { es.len() } else { 10 };
        let mut i: usize = 0;
        while i < n
            invariant
                i <= n <= 10,
                n <= es.len(),
                ev == take_at_most(entries_view(es@), 10),
                ev.len() == n,
                options_view(r@) == ev.take(i as int).map_values(|e: EntryView| (e.word, e.frequency as int)),
                options_bounded(options_view(r@)),
            decreases n - i,
        {
            assert(ev[i as int] == es@[i as int]@);
            let w = chars_of(es[i].word.as_str());
            let ghost before = options_view(r@);
            r.push((w, es[i].frequency as i128));
            assert(options_view(r@) =~= before.push((ev[i as int].word, ev[i as int].frequency as int)));
            i = i + 1;
            assert(options_view(r@) =~= ev.take(i as int).map_values(|e: EntryView| (e.word, e.frequency as int)));
        }
        assert(ev.take(n as int) =~= ev);
    }
    r
}

/// All combinations of the options from `start` on (see `combos`).
fn combos_exec(opts: &Vec<Vec<(Vec<char>, i128)>>, start: usize) -> (r: Vec<(Vec<char>, i128, i128)>)
    requires
        start <= opts.len() <= 64,
        forall|k: int| 0 <= k < opts@.len() ==> options_bounded(options_view(#[trigger] opts@[k]@)),
    ensures
        combos_view(r@) == combos(opts@.skip(start as int).map_values(|o: Vec<(Vec<char>, i128)>| options_view(o@))),
        combos_bounded(combos_view(r@), opts.len() - start),
    decreases opts.len() - start,
{
    let ghost ov = opts@.skip(start as int).map_values(|o: Vec<(Vec<char>, i128)>| options_view(o@));
    if start == opts.len() {
        let mut r: Vec<(Vec<char>, i128, i128)> = Vec::new();
        r.push((Vec::new(), 0, 0));
        assert(ov.len() == 0);
        assert(combos_view(r@) =~= seq![(Seq::<char>::empty(), 0int, 0int)]);
        return r;
    }
    let rest = combos_exec(opts, start + 1);
    let ghost rv = combos_view(rest@);
    proof {
        assert(ov.drop_first() =~= opts@.skip(start + 1).map_values(|o: Vec<(Vec<char>, i128)>| options_view(o@)));
    }
    let first = &opts[start];
    let ghost fv = options_view(first@);
    assert(ov[0] == fv);
    let m: usize = if first.len() < 2 { first.len() } else { 2 };
    let mut r: Vec<(Vec<char>, i128, i128)> = Vec::new();
    let mut i: usize = 0;
    while i < m
        invariant
            i <= m <= 2,
            m <= first.len(),
            start < opts.len() <= 64,
            first == &opts@[start as int],
            fv == options_view(first@),
            options_bounded(fv),
            rv == combos_view(rest@),
            combos_bounded(rv, opts.len() - start - 1),
            combos_view(r@) == combo_rows(fv, i as int, rv),
            combos_bounded(combos_view(r@), opts.len() - start),
        decreases m - i,
    {
        let ghost r0 = combos_view(r@);
        let mut j: usize = 0;
        assert(fv[i as int] == (first@[i as int].0@, first@[i as int].1 as int));
        while j < rest.len()
            invariant
                i < m <= first.len(),
                m <= 2,
                start < opts.len() <= 64,
                j <= rest.len(),
                fv == options_view(first@),
                options_bounded(fv),
                fv[i as int] == (first@[i as int].0@, first@[i as int].1 as int),
                rv == combos_view(rest@),
                combos_bounded(rv, opts.len() - start - 1),
                combos_view(r@) == r0 + rv.take(j as int).map_values(
                    |c: (Seq<char>, int, int)| (fv[i as int].0 + c.0, fv[i as int].1 + c.1, (i as int) + c.2),
                ),
                combos_bounded(r0, opts.len() - start),
                combos_bounded(combos_view(r@), opts.len() - start),
            decreases rest.len() - j,
        {
            let c = &rest[j];
            assert(rv[j as int] == (c.0@, c.1 as int, c.2 as int));
            let text = concat_chars(first[i].0.as_slice(), c.0.as_slice());
            assert(0 <= first@[i as int].1 < 0x1_0000_0000_0000_0000);
            let ghost before = combos_view(r@);
            r.push((text, first[i].1 + c.1, (i as i128) + c.2));
            assert(combos_bounded(combos_view(r@), opts.len() - start)) by {
                assert forall|q: int| 0 <= q < combos_view(r@).len() implies {
                    &&& 0 <= (#[trigger] combos_view(r@)[q]).1 <= (opts.len() - start) * 0x1_0000_0000_0000_0000
                    &&& 0 <= combos_view(r@)[q].2 <= opts.len() - start
                } by {
                    if q < before.len() {
                        assert(combos_view(r@)[q] == before[q]);
                        assert(0 <= before[q].1 <= (opts.len() - start) * 0x1_0000_0000_0000_0000);
                    } else {
                        assert(0 <= rv[j as int].1 <= (opts.len() - start - 1) * 0x1_0000_0000_0000_0000);
                        assert(0 <= rv[j as int].2 <= opts.len() - start - 1);
                        assert(0 <= fv[i as int].1 < 0x1_0000_0000_0000_0000);
                        assert(combos_view(r@)[q].1 == fv[i as int].1 + rv[j as int].1);
                        assert(combos_view(r@)[q].2 == i + rv[j as int].2);
                    }
                }
            }
            j = j + 1;
            assert(combos_view(r@) =~= before.push((fv[i as int].0 + rv[j - 1].0, fv[i as int].1 + rv[j - 1].1, (i as int) + rv[j - 1].2)));
            assert(combos_view(r@) =~= r0 + rv.take(j as int).map_values(
                |c: (Seq<char>, int, int)| (fv[i as int].0 + c.0, fv[i as int].1 + c.1, (i as int) + c.2),
            ));
        }
        assert(rv.take(rest.len() as int) =~= rv);
        i = i + 1;
    }
    r
}

/// Appends the first ten combinations of two to four syllables (see
/// `generate_combinations`).
fn push_combinations(
    cs: &mut Vec<Candidate>,
    dict: &Dictionary,
    builtin: &Vec<(Vec<char>, Vec<char>)>,
    syls: &Vec<Vec<char>>,
)
    requires
        rows_view(builtin@) == builtin_rows(),
    ensures
        cands_view(final(cs)@) == generate_combinations(cands_view(old(cs)@), seqs_view(syls@), dict.user(), dict.system()),
{
    let ghost sv = seqs_view(syls@);
    let ghost opts_spec = all_options(dict.user(), dict.system(), sv);
    let n = syls.len();
    if n < 2 || n > 4 {
        return;
    }
    let mut opts: Vec<Vec<(Vec<char>, i128)>> = Vec::new();
    let mut all_nonempty = true;
    let mut k: usize = 0;
    while k < n
        invariant
            k <= n <= 4,
            n == syls.len(),
            sv == seqs_view(syls@),
            rows_view(builtin@) == builtin_rows(),
            opts_spec == all_options(dict.user(), dict.system(), sv),
            opts@.len() == k,
            forall|q: int| 0 <= q < k ==> options_view(#[trigger] opts@[q]@) == opts_spec[q],
            forall|q: int| 0 <= q < k ==> options_bounded(options_view(#[trigger] opts@[q]@)),
            all_nonempty == (forall|q: int| 0 <= q < k ==> (#[trigger] opts_spec[q]).len() > 0),
        decreases n - k,
    {
        assert(sv[k as int] == syls@[k as int]@);
        let o = syllable_options_exec(dict, builtin, syls[k].as_slice());
        assert(opts_spec[k as int] == options_view(o@));
        assert(options_view(o@).len() == o@.len());
        if o.len() == 0 {
            all_nonempty = false;
        }
        opts.push(o);
        k = k + 1;
    }
    if !all_nonempty {
        return;
    }
    let cbs = combos_exec(&opts, 0);
    proof {
        assert(opts@.skip(0).map_values(|o: Vec<(Vec<char>, i128)>| options_view(o@)) =~= opts_spec);
    }
    let ghost cv = take_at_most(combos_view(cbs@), 10);
    let pinyin_chars = join_exec(syls, false);
    let pinyin = string_from_chars(pinyin_chars.as_slice());
    let pen: i128 = if n == 2 { 500 } else if n == 3 { 400 } else { 300 };
    let ghost c0 = cands_view(cs@);
    let m: usize = if cbs.len() < 10 { cbs.len() } else { 10 };
    let mut i: usize = 0;
    while i < m
        invariant
            i <= m <= 10,
            m <= cbs.len(),
            2 <= n <= 4,
            cv == take_at_most(combos_view(cbs@), 10),
            cv.len() == m,
            combos_bounded(combos_view(cbs@), n as int),
            pen as int == combo_penalty(n as int),
            pinyin@ == join_plain(sv),
            cands_view(cs@) == add_combinations(c0, cv.take(i as int), pinyin@, pen as int),
        decreases m - i,
    {
        let c = &cbs[i];
        assert(cv[i as int] == (c.0@, c.1 as int, c.2 as int));
        assert(combos_view(cbs@)[i as int] == cv[i as int]);
        proof {
            assert(cv.take(i + 1).drop_last() =~= cv.take(i as int));
        }
        let text = string_from_chars(c.0.as_slice());
        match find_text(cs, &text) {
            Some(_) => {}
            None => {
                let ghost acc = cands_view(cs@);
                assert(0 <= c.1 <= 4 * 0x1_0000_0000_0000_0000);
                assert(0 <= c.2 <= 4);
                let score: i128 = 500_000 + c.1 * 10 - c.2 * pen;
                cs.push(Candidate { text, pinyin: pinyin.clone(), score, source: PredictionSource::Dictionary });
                assert(cands_view(cs@) =~= acc.push(
                    CandView { text: cv[i as int].0, pinyin: pinyin@, score: 500_000 + cv[i as int].1 * 10 - cv[i as int].2 * pen, source: PredictionSource::Dictionary },
                ));
            }
        }
        i = i + 1;
    }
    assert(cv.take(m as int) =~= cv);
}


/// What `add_phrase_candidates` adds for several syllables: phrases under
/// the spaced key, phrases under the plain key, combinations, then the
/// characters of each syllable.
pub open spec fn phrase_cands(cs: Seq<CandView>, syls: Seq<Seq<char>>, user: TableView, system: TableView) -> Seq<CandView> {
    let c1 = upsert_phrases(cs, spec_lookup(user, system, join_spaced(syls)));
    let c2 = upsert_phrases_if_higher(c1, spec_lookup(user, system, join_plain(syls)));
    let c3 = generate_combinations(c2, syls, user, system);
    add_all_syllable_chars(c3, syls, user, system)
}

/// The score of the first candidate with text `t`.
pub open spec fn score_of(cs: Seq<CandView>, t: Seq<char>) -> int {
    cs[text_index(cs, t)].score
}

/// `b` keeps every text of `a`, each at a score at least as high.
pub open spec fn keeps_texts(a: Seq<CandView>, b: Seq<CandView>) -> bool {
    forall|t: Seq<char>| #[trigger] has_text(a, t) ==> has_text(b, t) && score_of(b, t) >= score_of(a, t)
}

proof fn lemma_find_first_push<T>(s: Seq<T>, x: T, pred: spec_fn(T) -> bool)
    ensures
        find_first(s.push(x), pred) == (if find_first(s, pred) >= 0 {
            find_first(s, pred)
        } else if pred(x) {
            s.len() as int
        } else {
            -1
        }),
{
    lemma_find_first(s, pred);
    let r = find_first(s, pred);
    let sp = s.push(x);
    if r >= 0 {
        assert(sp[r] == s[r]);
        assert forall|j: int| 0 <= j < r implies !pred(#[trigger] sp[j]) by {
            assert(sp[j] == s[j]);
        }
        lemma_find_first_at(sp, pred, r);
    } else if pred(x) {
        assert forall|j: int| 0 <= j < s.len() implies !pred(#[trigger] sp[j]) by {
            assert(sp[j] == s[j]);
        }
        lemma_find_first_at(sp, pred, s.len() as int);
    } else {
        assert forall|j: int| 0 <= j < sp.len() implies !pred(#[trigger] sp[j]) by {
            if j < s.len() {
                assert(sp[j] == s[j]);
            }
        }
        lemma_find_first_none(sp, pred);
    }
}

/// Lists with the same text at every place find every text at the same
/// place.
proof fn lemma_same_texts_index(a: Seq<CandView>, b: Seq<CandView>, t: Seq<char>)
    requires
        a.len() == b.len(),
        forall|i: int| 0 <= i < a.len() ==> (#[trigger] a[i]).text == b[i].text,
    ensures
        text_index(a, t) == text_index(b, t),
{
    let pred = has_text_pred(t);
    lemma_find_first(a, pred);
    let r = find_first(a, pred);
    if r >= 0 {
        assert(a[r].text == b[r].text);
        assert forall|j: int| 0 <= j < r implies !pred(#[trigger] b[j]) by {
            assert(a[j].text == b[j].text);
            assert(!pred(a[j]));
        }
        lemma_find_first_at(b, pred, r);
    } else {
        assert forall|j: int| 0 <= j < b.len() implies !pred(#[trigger] b[j]) by {
            assert(a[j].text == b[j].text);
            assert(!pred(a[j]));
        }
        lemma_find_first_none(b, pred);
    }
}

/// Appending a candidate whose text is new keeps every text and its
/// score, and finds the new text with the new score.
proof fn lemma_push_new_text(a: Seq<CandView>, c: CandView)
    requires
        !has_text(a, c.text),
    ensures
        keeps_texts(a, a.push(c)),
        has_text(a.push(c), c.text),
        score_of(a.push(c), c.text) == c.score,
        forall|t: Seq<char>| has_text(a, t) ==> text_index(a.push(c), t) == text_index(a, t),
{
    assert forall|t: Seq<char>| has_text(a, t) implies text_index(a.push(c), t) == text_index(a, t) by {
        lemma_find_first_push(a, c, has_text_pred(t));
    }
    lemma_find_first_push(a, c, has_text_pred(c.text));
    assert forall|t: Seq<char>| #[trigger] has_text(a, t) implies has_text(a.push(c), t) && score_of(a.push(c), t) >= score_of(a, t) by {
        lemma_find_first(a, has_text_pred(t));
        assert(a.push(c)[text_index(a, t)] == a[text_index(a, t)]);
    }
}

/// Raising the score of the first candidate with a text keeps every text
/// at a score at least as high.
proof fn lemma_raise_keeps(a: Seq<CandView>, j: int, c: CandView)
    requires
        0 <= j < a.len(),
        c.text == a[j].text,
        c.score >= a[j].score,
    ensures
        keeps_texts(a, a.update(j, c)),
        forall|t: Seq<char>| text_index(a.update(j, c), t) == text_index(a, t),
{
    let b = a.update(j, c);
    assert forall|t: Seq<char>| text_index(b, t) == text_index(a, t) by {
        lemma_same_texts_index(a, b, t);
    }
    assert forall|t: Seq<char>| #[trigger] has_text(a, t) implies has_text(b, t) && score_of(b, t) >= score_of(a, t) by {
        lemma_find_first(a, has_text_pred(t));
    }
}

proof fn lemma_keeps_refl(a: Seq<CandView>)
    ensures
        keeps_texts(a, a),
{
}

proof fn lemma_keeps_trans(a: Seq<CandView>, b: Seq<CandView>, c: Seq<CandView>)
    requires
        keeps_texts(a, b),
        keeps_texts(b, c),
    ensures
        keeps_texts(a, c),
{
    assert forall|t: Seq<char>| #[trigger] has_text(a, t) implies has_text(c, t) && score_of(c, t) >= score_of(a, t) by {
        assert(has_text(b, t));
    }
}

/// Adding a candidate only when its text is new keeps every text.
proof fn lemma_push_if_new_keeps(a: Seq<CandView>, c: CandView)
    ensures
        keeps_texts(a, if has_text(a, c.text) { a } else { a.push(c) }),
{
    if !has_text(a, c.text) {
        lemma_push_new_text(a, c);
    }
}

/// Every phrase found under the spaced key becomes a candidate with at
/// least a complete-phrase score (100); texts already present stay.
proof fn lemma_upsert_phrases(cs: Seq<CandView>, es: Seq<EntryView>)
    ensures
        forall|t: Seq<char>| #[trigger] has_text(cs, t) ==> has_text(upsert_phrases(cs, es), t),
        forall|k: int| 0 <= k < es.len() ==> {
            &&& has_text(upsert_phrases(cs, es), (#[trigger] es[k]).word)
            &&& score_of(upsert_phrases(cs, es), es[k].word) >= 1_000_000
        },
        forall|k: int| 0 <= k < es.len() && last_of_word(es, k) ==> score_of(upsert_phrases(cs, es), (#[trigger] es[k]).word) == phrase_score(es[k]),
    decreases es.len(),
{
    if es.len() > 0 {
        let d = es.drop_last();
        lemma_upsert_phrases(cs, d);
        let acc = upsert_phrases(cs, d);
        let e = es.last();
        let r = upsert_phrases(cs, es);
        let j = text_index(acc, e.word);
        lemma_find_first(acc, has_text_pred(e.word));
        // how the step treats the texts already present
        if j < 0 {
            let c = entry_cand(e, phrase_score(e), PredictionSource::Dictionary);
            lemma_push_new_text(acc, c);
            assert forall|t: Seq<char>| has_text(acc, t) implies has_text(r, t) && (score_of(acc, t) >= 1_000_000 ==> score_of(r, t) >= 1_000_000) by {
                lemma_find_first(acc, has_text_pred(t));
                assert(r[text_index(acc, t)] == acc[text_index(acc, t)]);
            }
        } else {
            let c = CandView { score: phrase_score(e), source: PredictionSource::Dictionary, ..acc[j] };
            assert forall|t: Seq<char>| text_index(r, t) == text_index(acc, t) by {
                lemma_same_texts_index(acc, r, t);
            }
            assert forall|t: Seq<char>| has_text(acc, t) implies has_text(r, t) && (score_of(acc, t) >= 1_000_000 ==> score_of(r, t) >= 1_000_000) by {
                lemma_find_first(acc, has_text_pred(t));
            }
            assert(has_text_pred(e.word)(acc[j]));
        }
        assert forall|t: Seq<char>| #[trigger] has_text(cs, t) implies has_text(r, t) by {
            assert(has_text(acc, t));
        }
        assert forall|k: int| 0 <= k < es.len() implies {
            &&& has_text(r, (#[trigger] es[k]).word)
            &&& score_of(r, es[k].word) >= 1_000_000
        } by {
            if k < d.len() {
                assert(es[k] == d[k]);
                assert(has_text(acc, d[k].word));
            }
        }
        assert forall|k: int| 0 <= k < es.len() && last_of_word(es, k) implies score_of(r, (#[trigger] es[k]).word) == phrase_score(es[k]) by {
            if k < d.len() {
                assert(es[k] == d[k]);
                assert(es[es.len() - 1].word != es[k].word);
                assert(last_of_word(d, k)) by {
                    assert forall|k2: int| k < k2 < d.len() implies (#[trigger] d[k2]).word != d[k].word by {
                        assert(d[k2] == es[k2]);
                    }
                }
                let t = d[k].word;
                assert(has_text(acc, t));
                lemma_find_first(acc, has_text_pred(t));
                if j < 0 {
                    assert(r[text_index(acc, t)] == acc[text_index(acc, t)]);
                } else {
                    assert(has_text_pred(e.word)(acc[j]));
                    assert(acc[text_index(acc, t)].text == t);
                    assert(text_index(acc, t) != j);
                }
            } else {
                if j >= 0 {
                    assert(has_text_pred(e.word)(acc[j]));
                }
            }
        }
    }
}

/// No later entry has the word of entry `k`.
pub open spec fn last_of_word(es: Seq<EntryView>, k: int) -> bool {
    forall|k2: int| k < k2 < es.len() ==> (#[trigger] es[k2]).word != es[k].word
}

/// Every phrase found under the plain key becomes a candidate with at
/// least its phrase score, and every text present keeps its score or
/// better.
proof fn lemma_upsert_phrases_if_higher(cs: Seq<CandView>, es: Seq<EntryView>)
    ensures
        keeps_texts(cs, upsert_phrases_if_higher(cs, es)),
        forall|k: int| 0 <= k < es.len() ==> {
            &&& has_text(upsert_phrases_if_higher(cs, es), (#[trigger] es[k]).word)
            &&& score_of(upsert_phrases_if_higher(cs, es), es[k].word) >= phrase_score(es[k])
        },
    decreases es.len(),
{
    if es.len() == 0 {
        lemma_keeps_refl(cs);
    } else {
        let d = es.drop_last();
        lemma_upsert_phrases_if_higher(cs, d);
        let acc = upsert_phrases_if_higher(cs, d);
        let e = es.last();
        let r = upsert_phrases_if_higher(cs, es);
        let j = text_index(acc, e.word);
        lemma_find_first(acc, has_text_pred(e.word));
        if j < 0 {
            lemma_push_new_text(acc, entry_cand(e, phrase_score(e), PredictionSource::Dictionary));
        } else {
            assert(has_text_pred(e.word)(acc[j]));
            if phrase_score(e) > acc[j].score {
                lemma_raise_keeps(acc, j, CandView { score: phrase_score(e), source: PredictionSource::Dictionary, ..acc[j] });
            } else {
                lemma_keeps_refl(acc);
            }
        }
        lemma_keeps_trans(cs, acc, r);
        assert forall|k: int| 0 <= k < es.len() implies {
            &&& has_text(r, (#[trigger] es[k]).word)
            &&& score_of(r, es[k].word) >= phrase_score(es[k])
        } by {
            if k < d.len() {
                assert(es[k] == d[k]);
                assert(has_text(acc, d[k].word));
            }
        }
    }
}

proof fn lemma_add_combinations_keeps(cs: Seq<CandView>, cbs: Seq<(Seq<char>, int, int)>, pinyin: Seq<char>, pen: int)
    ensures
        keeps_texts(cs, add_combinations(cs, cbs, pinyin, pen)),
    decreases cbs.len(),
{
    if cbs.len() == 0 {
        lemma_keeps_refl(cs);
    } else {
        lemma_add_combinations_keeps(cs, cbs.drop_last(), pinyin, pen);
        let acc = add_combinations(cs, cbs.drop_last(), pinyin, pen);
        let c = cbs.last();
        lemma_push_if_new_keeps(acc, CandView { text: c.0, pinyin, score: 500_000 + c.1 * 10 - c.2 * pen, source: PredictionSource::Dictionary });
        lemma_keeps_trans(cs, acc, add_combinations(cs, cbs, pinyin, pen));
    }
}

proof fn lemma_add_syllable_chars_keeps(cs: Seq<CandView>, es: Seq<EntryView>, si: int)
    ensures
        keeps_texts(cs, add_syllable_chars(cs, es, si)),
    decreases es.len(),
{
    if es.len() == 0 {
        lemma_keeps_refl(cs);
    } else {
        lemma_add_syllable_chars_keeps(cs, es.drop_last(), si);
        let acc = add_syllable_chars(cs, es.drop_last(), si);
        let e = es.last();
        lemma_push_if_new_keeps(acc, entry_cand(e, syllable_char_score(si, es.len() - 1, e), PredictionSource::Dictionary));
        lemma_keeps_trans(cs, acc, add_syllable_chars(cs, es, si));
    }
}

proof fn lemma_add_all_syllable_chars_keeps(cs: Seq<CandView>, syls: Seq<Seq<char>>, user: TableView, system: TableView)
    ensures
        keeps_texts(cs, add_all_syllable_chars(cs, syls, user, system)),
    decreases syls.len(),
{
    if syls.len() == 0 {
        lemma_keeps_refl(cs);
    } else {
        lemma_add_all_syllable_chars_keeps(cs, syls.drop_last(), user, system);
        let acc = add_all_syllable_chars(cs, syls.drop_last(), user, system);
        lemma_add_syllable_chars_keeps(acc, take_at_most(spec_lookup(user, system, syls.last()), 5), syls.len() - 1);
        lemma_keeps_trans(cs, acc, add_all_syllable_chars(cs, syls, user, system));
    }
}

/// Complete phrases come first among the candidates of several
/// syllables: every dictionary entry stored under the syllables joined
/// with spaces is a candidate scoring at least 100, and at least its
/// phrase score 100 + frequency/100 when it is the last entry of that
/// lookup with its word (a later one sets the score again); every entry
/// stored under the syllables joined without separator is a candidate
/// scoring at least its phrase score 100 + frequency/100; candidates
/// given beforehand stay.
pub proof fn lemma_phrase_cands_hold_phrases(cs: Seq<CandView>, syls: Seq<Seq<char>>, user: TableView, system: TableView)
    ensures
        ({
            let r = phrase_cands(cs, syls, user, system);
            let spaced = spec_lookup(user, system, join_spaced(syls));
            let plain = spec_lookup(user, system, join_plain(syls));
            &&& forall|t: Seq<char>| #[trigger] has_text(cs, t) ==> has_text(r, t)
            &&& forall|k: int| 0 <= k < spaced.len() ==> has_text(r, (#[trigger] spaced[k]).word) && score_of(r, spaced[k].word) >= 1_000_000
            &&& forall|k: int| 0 <= k < spaced.len() && last_of_word(spaced, k) ==> score_of(r, (#[trigger] spaced[k]).word) >= phrase_score(spaced[k])
            &&& forall|k: int| 0 <= k < plain.len() ==> has_text(r, (#[trigger] plain[k]).word) && score_of(r, plain[k].word) >= phrase_score(plain[k])
        }),
{
    let spaced = spec_lookup(user, system, join_spaced(syls));
    let plain = spec_lookup(user, system, join_plain(syls));
    let c1 = upsert_phrases(cs, spaced);
    let c2 = upsert_phrases_if_higher(c1, plain);
    let c3 = generate_combinations(c2, syls, user, system);
    let r = add_all_syllable_chars(c3, syls, user, system);
    lemma_upsert_phrases(cs, spaced);
    lemma_upsert_phrases_if_higher(c1, plain);
    let n = syls.len() as int;
    let opts = all_options(user, system, syls);
    if 2 <= n <= 4 && forall|k: int| 0 <= k < n ==> (#[trigger] opts[k]).len() > 0 {
        lemma_add_combinations_keeps(c2, take_at_most(combos(opts), 10), join_plain(syls), combo_penalty(n));
    } else {
        lemma_keeps_refl(c2);
    }
    lemma_add_all_syllable_chars_keeps(c3, syls, user, system);
    lemma_keeps_trans(c2, c3, r);
    assert forall|t: Seq<char>| #[trigger] has_text(cs, t) implies has_text(r, t) by {
        assert(has_text(c1, t));
        assert(has_text(c2, t));
    }
    assert forall|k: int| 0 <= k < spaced.len() implies has_text(r, (#[trigger] spaced[k]).word) && score_of(r, spaced[k].word) >= 1_000_000 by {
        assert(has_text(c1, spaced[k].word));
        assert(has_text(c2, spaced[k].word));
    }
    assert forall|k: int| 0 <= k < plain.len() implies has_text(r, (#[trigger] plain[k]).word) && score_of(r, plain[k].word) >= phrase_score(plain[k]) by {
        assert(has_text(c2, plain[k].word));
    }
    assert forall|k: int| 0 <= k < spaced.len() && last_of_word(spaced, k) implies score_of(r, (#[trigger] spaced[k]).word) >= phrase_score(spaced[k]) by {
        assert(has_text(c1, spaced[k].word));
        assert(has_text(c2, spaced[k].word));
    }
}

pub(crate) fn push_phrase_cands(
    cs: &mut Vec<Candidate>,
    dict: &Dictionary,
    builtin: &Vec<(Vec<char>, Vec<char>)>,
    syls: &Vec<Vec<char>>,
)
    requires
        rows_view(builtin@) == builtin_rows(),
    ensures
        cands_view(final(cs)@) == phrase_cands(cands_view(old(cs)@), seqs_view(syls@), dict.user(), dict.system()),
{
    let ghost sv = seqs_view(syls@);
    let spaced = join_exec(syls, true);
    let es1 = lookup_key(dict, spaced.as_slice());
    push_phrases(cs, &es1, false);
    let plain = join_exec(syls, false);
    let es2 = lookup_key(dict, plain.as_slice());
    push_phrases(cs, &es2, true);
    push_combinations(cs, dict, builtin, syls);
    let ghost c3 = cands_view(cs@);
    let mut si: usize = 0;
    while si < syls.len()
        invariant
            si <= syls.len(),
            sv == seqs_view(syls@),
            cands_view(cs@) == add_all_syllable_chars(c3, sv.take(si as int), dict.user(), dict.system()),
        decreases syls.len() - si,
    {
        assert(sv[si as int] == syls@[si as int]@);
        proof {
            assert(sv.take(si + 1).drop_last() =~= sv.take(si as int));
        }
        let es = lookup_key(dict, syls[si].as_slice());
        push_syllable_chars(cs, &es, si);
        si = si + 1;
    }
    assert(sv.take(syls.len() as int) =~= sv);
}

// ---------------------------------------------------------------------
// Initial-letter candidates
// ---------------------------------------------------------------------

/// Every combination extended by every syllable of `tops`, in order.
pub open spec fn extend_combos(cs: Seq<Seq<Seq<char>>>, tops: Seq<Seq<char>>) -> Seq<Seq<Seq<char>>>
    decreases cs.len(),
{
    if cs.len() == 0 {
        Seq::empty()
    } else {
        extend_combos(cs.drop_last(), tops) + tops.map_values(|py: Seq<char>| cs.last().push(py))
    }
}

/// The syllable combinations that initial letters expand to: each letter
/// stands for the first three syllables that begin with it; a letter that
/// begins no syllable is skipped.
pub open spec fn initial_combos(sylls: Seq<Seq<char>>, initials: Seq<Seq<char>>) -> Seq<Seq<Seq<char>>>
    decreases initials.len(),
{
    if initials.len() == 0 {
        seq![Seq::<Seq<char>>::empty()]
    } else {
        let cs = initial_combos(sylls, initials.drop_last());
        let tops = take_at_most(syllables_with_initial(sylls, initials.last()[0]), 3);
        if tops.len() == 0 { cs } else { extend_combos(cs, tops) }
    }
}

/// The combined candidate of two single characters.
pub open spec fn pair_cand(e1: EntryView, e2: EntryView, i: int, j: int) -> CandView {
    CandView {
        text: e1.word + e2.word,
        pinyin: e1.pinyin + seq![' '] + e2.pinyin,
        score: (e1.frequency + e2.frequency) * 50 - (i + j) * 1000,
        source: PredictionSource::Dictionary,
    }
}

/// Pairs of the first `m1` and first `m2` entries, first entry major.
pub open spec fn pair_rows(e1s: Seq<EntryView>, e2s: Seq<EntryView>, m1: int, m2: int) -> Seq<CandView>
    decreases m1,
{
    if m1 <= 0 {
        Seq::empty()
    } else {
        pair_rows(e1s, e2s, m1 - 1, m2) + Seq::new(m2 as nat, |j: int| pair_cand(e1s[m1 - 1], e2s[j], m1 - 1, j))
    }
}

/// Candidates of one combination: the dictionary entries of the joined
/// syllables (score frequency/100 + 0.5); when there are none and the
/// combination has two syllables, pairs of the top three characters of
/// each.
pub open spec fn add_initial_combo(cs: Seq<CandView>, combo: Seq<Seq<char>>, user: TableView, system: TableView) -> Seq<CandView> {
    let es = spec_lookup(user, system, join_plain(combo));
    let c1 = cs + es.map_values(|e: EntryView| entry_cand(e, e.frequency * 100 + 5000, PredictionSource::Dictionary));
    if es.len() == 0 && combo.len() == 2 {
        let e1s = spec_lookup(user, system, combo[0]);
        let e2s = spec_lookup(user, system, combo[1]);
        let m1 = if e1s.len() < 3 { e1s.len() as int } else { 3 };
        let m2 = if e2s.len() < 3 { e2s.len() as int } else { 3 };
        c1 + pair_rows(e1s, e2s, m1, m2)
    } else {
        c1
    }
}

/// Candidates of each combination in turn.
pub open spec fn add_initial_combos(cs: Seq<CandView>, combos: Seq<Seq<Seq<char>>>, user: TableView, system: TableView) -> Seq<CandView>
    decreases combos.len(),
{
    if combos.len() == 0 {
        cs
    } else {
        add_initial_combo(add_initial_combos(cs, combos.drop_last(), user, system), combos.last(), user, system)
    }
}

/// What `add_initial_candidates` adds: the candidates of the first twenty
/// combinations.
pub open spec fn initial_cands(cs: Seq<CandView>, syls: Seq<Seq<char>>, user: TableView, system: TableView) -> Seq<CandView> {
    add_initial_combos(cs, take_at_most(initial_combos(crate::pinyin::builtin_syllables(), syls), 20), user, system)
}

/// The view of a list of combinations.
pub open spec fn combos_list_view(v: Seq<Vec<Vec<char>>>) -> Seq<Seq<Seq<char>>> {
    v.map_values(|c: Vec<Vec<char>>| seqs_view(c@))
}

/// A copy of a list of character vectors with one more at the end.
fn push_copy(c: &Vec<Vec<char>>, py: &Vec<char>) -> (r: Vec<Vec<char>>)
    ensures
        seqs_view(r@) == seqs_view(c@).push(py@),
{
    let mut r: Vec<Vec<char>> = Vec::new();
    let mut i: usize = 0;
    while i < c.len()
        invariant
            i <= c.len(),
            seqs_view(r@) == seqs_view(c@).take(i as int),
        decreases c.len() - i,
    {
        let ghost before = seqs_view(r@);
        r.push(copy_chars(c[i].as_slice()));
        assert(seqs_view(r@) =~= before.push(c@[i as int]@));
        i = i + 1;
        assert(seqs_view(r@) =~= seqs_view(c@).take(i as int));
    }
    let ghost before = seqs_view(r@);
    r.push(copy_chars(py.as_slice()));
    assert(seqs_view(r@) =~= before.push(py@));
    assert(seqs_view(c@).take(c.len() as int) =~= seqs_view(c@));
    r
}

/// The combinations that initial letters expand to (see `initial_combos`).
fn initial_combos_exec(parser: &PinyinParser, initials: &Vec<Vec<char>>) -> (r: Vec<Vec<Vec<char>>>)
    requires
        forall|k: int| 0 <= k < initials@.len() ==> (#[trigger] initials@[k]).len() > 0,
    ensures
        combos_list_view(r@) == initial_combos(parser.syllables(), seqs_view(initials@)),
{
    let ghost sv = seqs_view(initials@);
    let mut combos: Vec<Vec<Vec<char>>> = Vec::new();
    combos.push(Vec::new());
    assert(combos_list_view(combos@) =~= seq![Seq::<Seq<char>>::empty()]) by {
        assert(seqs_view(combos@[0]@) =~= Seq::<Seq<char>>::empty());
    }
    let mut k: usize = 0;
    assert(sv.take(0) =~= Seq::<Seq<char>>::empty());
    while k < initials.len()
        invariant
            k <= initials.len(),
            sv == seqs_view(initials@),
            forall|q: int| 0 <= q < initials@.len() ==> (#[trigger] initials@[q]).len() > 0,
            combos_list_view(combos@) == initial_combos(parser.syllables(), sv.take(k as int)),
        decreases initials.len() - k,
    {
        assert(sv[k as int] == initials@[k as int]@);
        assert(initials@[k as int].len() > 0);
        proof {
            assert(sv.take(k + 1).drop_last() =~= sv.take(k as int));
            assert(sv.take(k + 1).last() == sv[k as int]);
        }
        let c = initials[k][0];
        let all = parser.initial_syllables(c);
        let ghost tops = take_at_most(syllables_with_initial(parser.syllables(), c), 3);
        let m: usize = if all.len() < 3 { all.len() } else { 3 };
        assert(tops.len() == m);
        if m > 0 {
            let ghost cv = combos_list_view(combos@);
            let mut next: Vec<Vec<Vec<char>>> = Vec::new();
            let mut i: usize = 0;
            while i < combos.len()
                invariant
                    i <= combos.len(),
                    m <= all.len(),
                    m <= 3,
                    cv == combos_list_view(combos@),
                    tops == take_at_most(seqs_view(all@), 3),
                    tops.len() == m,
                    combos_list_view(next@) == extend_combos(cv.take(i as int), tops),
                decreases combos.len() - i,
            {
                let ghost n0 = combos_list_view(next@);
                let mut j: usize = 0;
                while j < m
                    invariant
                        i < combos.len(),
                        j <= m <= all.len(),
                        m <= 3,
                        cv == combos_list_view(combos@),
                        tops == take_at_most(seqs_view(all@), 3),
                        tops.len() == m,
                        combos_list_view(next@) == n0 + tops.take(j as int).map_values(|py: Seq<char>| cv[i as int].push(py)),
                    decreases m - j,
                {
                    let nc = push_copy(&combos[i], &all[j]);
                    assert(seqs_view(nc@) == cv[i as int].push(tops[j as int]));
                    let ghost before = combos_list_view(next@);
                    next.push(nc);
                    j = j + 1;
                    assert(combos_list_view(next@) =~= before.push(cv[i as int].push(tops[j - 1])));
                    assert(combos_list_view(next@) =~= n0 + tops.take(j as int).map_values(|py: Seq<char>| cv[i as int].push(py)));
                }
                proof {
                    assert(tops.take(m as int) =~= tops);
                    assert(cv.take(i + 1).drop_last() =~= cv.take(i as int));
                    assert(cv.take(i + 1).last() == cv[i as int]);
                }
                i = i + 1;
            }
            assert(cv.take(combos.len() as int) =~= cv);
            combos = next;
        }
        k = k + 1;
    }
    assert(sv.take(initials.len() as int) =~= sv);
    combos
}

/// Appends pairs of the top three entries of two syllables.
fn push_pairs(cs: &mut Vec<Candidate>, e1s: &Vec<DictEntry>, e2s: &Vec<DictEntry>)
    ensures
        cands_view(final(cs)@) == cands_view(old(cs)@) + pair_rows(
            entries_view(e1s@),
            entries_view(e2s@),
            if e1s@.len() < 3 { e1s@.len() as int } else { 3 },
            if e2s@.len() < 3 { e2s@.len() as int } else { 3 },
        ),
{
    let ghost c0 = cands_view(cs@);
    let ghost v1 = entries_view(e1s@);
    let ghost v2 = entries_view(e2s@);
    let m1: usize = if e1s.len() < 3 { e1s.len() } else { 3 };
    let m2: usize = if e2s.len() < 3 { e2s.len() } else { 3 };
    let mut i: usize = 0;
    while i < m1
        invariant
            i <= m1 <= 3,
            m1 <= e1s.len(),
            m2 <= e2s.len(),
            m2 <= 3,
            v1 == entries_view(e1s@),
            v2 == entries_view(e2s@),
            cands_view(cs@) == c0 + pair_rows(v1, v2, i as int, m2 as int),
        decreases m1 - i,
    {
        let ghost r0 = cands_view(cs@);
        let mut j: usize = 0;
        while j < m2
            invariant
                i < m1 <= e1s.len(),
                j <= m2 <= e2s.len(),
                m2 <= 3,
                m1 <= 3,
                v1 == entries_view(e1s@),
                v2 == entries_view(e2s@),
                cands_view(cs@) == r0 + Seq::new(m2 as nat, |q: int| pair_cand(v1[i as int], v2[q], i as int, q)).take(j as int),
            decreases m2 - j,
        {
            let e1 = &e1s[i];
            let e2 = &e2s[j];
            assert(v1[i as int] == e1@ && v2[j as int] == e2@);
            let w1 = chars_of(e1.word.as_str());
            let w2 = chars_of(e2.word.as_str());
            let text = concat_chars(w1.as_slice(), w2.as_slice());
            let p1 = chars_of(e1.pinyin.as_str());
            let mut p = copy_chars(p1.as_slice());
            p.push(' ');
            let p2 = chars_of(e2.pinyin.as_str());
            let py = concat_chars(p.as_slice(), p2.as_slice());
            assert(py@ =~= e1@.pinyin + seq![' '] + e2@.pinyin);
            assert(text@ =~= e1@.word + e2@.word);
            let score: i128 = ((e1.frequency as i128) + (e2.frequency as i128)) * 50 - ((i + j) as i128) * 1000;
            let ghost before = cands_view(cs@);
            cs.push(Candidate {
                text: string_from_chars(text.as_slice()),
                pinyin: string_from_chars(py.as_slice()),
                score,
                source: PredictionSource::Dictionary,
            });
            assert(cands_view(cs@) =~= before.push(pair_cand(v1[i as int], v2[j as int], i as int, j as int)));
            j = j + 1;
            assert(cands_view(cs@) =~= r0 + Seq::new(m2 as nat, |q: int| pair_cand(v1[i as int], v2[q], i as int, q)).take(j as int));
        }
        assert(Seq::new(m2 as nat, |q: int| pair_cand(v1[i as int], v2[q], i as int, q)).take(m2 as int)
            =~= Seq::new(m2 as nat, |q: int| pair_cand(v1[i as int], v2[q], i as int, q)));
        i = i + 1;
        assert(cands_view(cs@) =~= c0 + pair_rows(v1, v2, i as int, m2 as int));
    }
}

/// Appends the candidates of the first twenty combinations of initials.
pub(crate) fn push_initial_cands(cs: &mut Vec<Candidate>, dict: &Dictionary, parser: &PinyinParser, initials: &Vec<Vec<char>>)
    requires
        forall|k: int| 0 <= k < initials@.len() ==> (#[trigger] initials@[k]).len() > 0,
        parser.syllables() == crate::pinyin::builtin_syllables(),
    ensures
        cands_view(final(cs)@) == initial_cands(cands_view(old(cs)@), seqs_view(initials@), dict.user(), dict.system()),
{
    let combos = initial_combos_exec(parser, initials);
    let ghost cl = take_at_most(combos_list_view(combos@), 20);
    let ghost c0 = cands_view(cs@);
    let n: usize = if combos.len() < 20 { combos.len() } else { 20 };
    let mut i: usize = 0;
    while i < n
        invariant
            i <= n <= 20,
            n <= combos.len(),
            cl == take_at_most(combos_list_view(combos@), 20),
            cl.len() == n,
            cands_view(cs@) == add_initial_combos(c0, cl.take(i as int), dict.user(), dict.system()),
        decreases n - i,
    {
        let combo = &combos[i];
        let ghost cv = seqs_view(combo@);
        assert(cl[i as int] == cv);
        proof {
            assert(cl.take(i + 1).drop_last() =~= cl.take(i as int));
        }
        let key = join_exec(combo, false);
        let es = lookup_key(dict, key.as_slice());
        let ghost before = cands_view(cs@);
        let ghost ev = entries_view(es@);
        let mut k: usize = 0;
        while k < es.len()
            invariant
                k <= es.len(),
                ev == entries_view(es@),
                cands_view(cs@) == before + ev.take(k as int).map_values(
                    |e: EntryView| entry_cand(e, e.frequency * 100 + 5000, PredictionSource::Dictionary),
                ),
            decreases es.len() - k,
        {
            let e = &es[k];
            assert(ev[k as int] == e@);
            let ghost b2 = cands_view(cs@);
            cs.push(Candidate {
                text: e.word.clone(),
                pinyin: e.pinyin.clone(),
                score: (e.frequency as i128) * 100 + 5000,
                source: PredictionSource::Dictionary,
            });
            assert(cands_view(cs@) =~= b2.push(entry_cand(e@, e@.frequency * 100 + 5000, PredictionSource::Dictionary)));
            k = k + 1;
            assert(cands_view(cs@) =~= before + ev.take(k as int).map_values(
                |e: EntryView| entry_cand(e, e.frequency * 100 + 5000, PredictionSource::Dictionary),
            ));
        }
        assert(ev.take(es.len() as int) =~= ev);
        if es.len() == 0 && combo.len() == 2 {
            assert(cv[0] == combo@[0]@ && cv[1] == combo@[1]@);
            let e1s = lookup_key(dict, combo[0].as_slice());
            let e2s = lookup_key(dict, combo[1].as_slice());
            push_pairs(cs, &e1s, &e2s);
        }
        i = i + 1;
    }
    assert(cl.take(n as int) =~= cl);
}

} // verus!
