//! What candidate generation guarantees for a whole preedit: complete
//! phrases are offered, and the fuzzy pass adds only new texts.

use vstd::prelude::*;
use crate::candidates::{
    builtin_cands, dict_cands, distinct_texts, extends_with_new_texts, has_text, join_plain, join_spaced, keeps_texts,
    lemma_add_ai_keeps, lemma_fuzzy_adds_new_texts, lemma_phrase_cands_hold_phrases, phrase_score, score_of,
};
use crate::config::InputConfig;
use crate::dictionary::{spec_lookup, TableView};
use crate::engine::{all_cands, base_cands, is_initial_input, wants_ai};
use crate::model::PredictionView;
use crate::pinyin::{builtin_chars, builtin_rows, builtin_syllables, fuzzy_matches, segment};

verus! {

/// For a preedit of several syllables that is not a run of initials,
/// every dictionary entry stored under its syllables joined with spaces
/// or without separator is among the generated candidates, scoring at
/// least 100 (at least its phrase score 100 + frequency/100 for an entry
/// under the plain key).
pub proof fn lemma_phrases_generated(
    cfg: InputConfig,
    user: TableView,
    system: TableView,
    preedit: Seq<char>,
    avail: bool,
    preds: Seq<PredictionView>,
)
    requires
        segment(builtin_syllables(), preedit).len() >= 2,
        !is_initial_input(segment(builtin_syllables(), preedit)),
    ensures
        ({
            let syls = segment(builtin_syllables(), preedit);
            let all = all_cands(cfg, user, system, preedit, avail, preds);
            let spaced = spec_lookup(user, system, join_spaced(syls));
            let plain = spec_lookup(user, system, join_plain(syls));
            &&& forall|k: int| 0 <= k < spaced.len() ==> has_text(all, (#[trigger] spaced[k]).word) && score_of(all, spaced[k].word) >= 1_000_000
            &&& forall|k: int| 0 <= k < plain.len() ==> has_text(all, (#[trigger] plain[k]).word) && score_of(all, plain[k].word) >= phrase_score(plain[k])
        }),
{
    let syls = segment(builtin_syllables(), preedit);
    let base = base_cands(cfg, user, system, syls);
    let all = all_cands(cfg, user, system, preedit, avail, preds);
    let spaced = spec_lookup(user, system, join_spaced(syls));
    let plain = spec_lookup(user, system, join_plain(syls));
    lemma_phrase_cands_hold_phrases(Seq::empty(), syls, user, system);
    if wants_ai(cfg, preedit) && avail {
        lemma_add_ai_keeps(base, preedit, preds);
    } else {
        assert(keeps_texts(base, all));
    }
    assert forall|k: int| 0 <= k < spaced.len() implies has_text(all, (#[trigger] spaced[k]).word) && score_of(all, spaced[k].word) >= 1_000_000 by {
        assert(has_text(base, spaced[k].word));
    }
    assert forall|k: int| 0 <= k < plain.len() implies has_text(all, (#[trigger] plain[k]).word) && score_of(all, plain[k].word) >= phrase_score(plain[k]) by {
        assert(has_text(base, plain[k].word));
    }
}

/// For a preedit of one syllable with fuzzy pinyin on, the fuzzy pass
/// adds only candidates whose texts are not yet listed: the generated
/// list is the syllable's own candidates followed by new texts only.
pub proof fn lemma_single_syllable_fuzzy_new_texts(cfg: InputConfig, user: TableView, system: TableView, preedit: Seq<char>)
    requires
        segment(builtin_syllables(), preedit).len() == 1,
        cfg.fuzzy_pinyin,
    ensures
        ({
            let syl = segment(builtin_syllables(), preedit)[0];
            let d = dict_cands(spec_lookup(user, system, syl));
            let own = if d.len() == 0 { builtin_cands(syl, builtin_chars(builtin_rows(), syl)) } else { d };
            &&& extends_with_new_texts(own, base_cands(cfg, user, system, segment(builtin_syllables(), preedit)))
            &&& distinct_texts(own) ==> distinct_texts(base_cands(cfg, user, system, segment(builtin_syllables(), preedit)))
        }),
{
    let syls = segment(builtin_syllables(), preedit);
    let syl = syls[0];
    let d = dict_cands(spec_lookup(user, system, syl));
    let own = if d.len() == 0 { builtin_cands(syl, builtin_chars(builtin_rows(), syl)) } else { d };
    lemma_fuzzy_adds_new_texts(own, syl, fuzzy_matches(syl), user, system);
}

} // verus!
