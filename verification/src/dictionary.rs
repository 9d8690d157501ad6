//! Dictionary management: the system table, the user table that learns
//! from commits, lookup with merged frequencies, and the text format in
//! which tables are stored (`word\tpinyin\tfrequency\tlast_used` per line).
//!
//! A table is a list of buckets, one per pinyin key, each holding the
//! entries for that key in insertion order.

use vstd::prelude::*;
use crate::config::DictionaryConfig;
use crate::pinyin::{builtin_rows, builtin_table, rows_view};
use crate::text::{
    all_digits, lacks, lemma_lines_fold_line, lemma_split_fold_append, lemma_split_fold_sep,
    lemma_u64_digits_value, lemma_u64_format_parse, lines_fold, split_fold,
    chars_of, find_first, lemma_find_first, lemma_find_first_at, lemma_find_first_none, parse_u64,
    push_char, spec_lines, spec_parse_u64, spec_split, spec_u64_digits, split_lines, split_on,
    string_from_chars, u64_to_chars,
};

verus! {

/// Dictionary entry with frequency information.
#[derive(Debug, Clone)]
pub struct DictEntry {
    /// The word/phrase
    pub word: String,
    /// Pinyin representation
    pub pinyin: String,
    /// Usage frequency
    pub frequency: u64,
    /// Last used timestamp
    pub last_used: Option<u64>,
}

/// The mathematical value of a dictionary entry.
pub struct EntryView {
    pub word: Seq<char>,
    pub pinyin: Seq<char>,
    pub frequency: u64,
    pub last_used: Option<u64>,
}

impl View for DictEntry {
    type V = EntryView;

    open spec fn view(&self) -> EntryView {
        EntryView { word: self.word@, pinyin: self.pinyin@, frequency: self.frequency, last_used: self.last_used }
    }
}

impl DictEntry {
    /// A copy of the entry.
    pub fn duplicate(&self) -> (r: DictEntry)
        ensures
            r@ == self@,
    {
        DictEntry {
            word: self.word.clone(),
            pinyin: self.pinyin.clone(),
            frequency: self.frequency,
            last_used: self.last_used,
        }
    }
}

/// A table: pinyin keys with their entries.
pub type TableView = Seq<(Seq<char>, Seq<EntryView>)>;

/// The view of a list of entries.
pub open spec fn entries_view(v: Seq<DictEntry>) -> Seq<EntryView> {
    v.map_values(|e: DictEntry| e@)
}

/// The view of a table held as vectors.
pub open spec fn table_view(t: Seq<(String, Vec<DictEntry>)>) -> TableView {
    t.map_values(|b: (String, Vec<DictEntry>)| (b.0@, entries_view(b.1@)))
}

/// The predicate "bucket has key `key`".
pub open spec fn has_key(key: Seq<char>) -> spec_fn((Seq<char>, Seq<EntryView>)) -> bool {
    |b: (Seq<char>, Seq<EntryView>)| b.0 == key
}

/// The predicate "entry is the word `w`".
pub open spec fn is_word(w: Seq<char>) -> spec_fn(EntryView) -> bool {
    |e: EntryView| e.word == w
}

/// Index of the bucket for `key`, or -1.
pub open spec fn table_index(t: TableView, key: Seq<char>) -> int {
    find_first(t, has_key(key))
}

/// The entries stored under `key` (none when the key is absent).
pub open spec fn table_get(t: TableView, key: Seq<char>) -> Seq<EntryView> {
    let i = table_index(t, key);
    if i < 0 { Seq::empty() } else { t[i].1 }
}

/// Appends an entry under `key`, creating the bucket when needed.
pub open spec fn table_append(t: TableView, key: Seq<char>, e: EntryView) -> TableView {
    let i = table_index(t, key);
    if i < 0 { t.push((key, seq![e])) } else { t.update(i, (key, t[i].1.push(e))) }
}

/// Stores `es` under `key`, replacing what was there.
pub open spec fn table_insert(t: TableView, key: Seq<char>, es: Seq<EntryView>) -> TableView {
    let i = table_index(t, key);
    if i < 0 { t.push((key, es)) } else { t.update(i, (key, es)) }
}

/// Index of the first entry for word `w`, or -1.
pub open spec fn word_index(es: Seq<EntryView>, w: Seq<char>) -> int {
    find_first(es, is_word(w))
}

// ---------------------------------------------------------------------
// Lookup
// ---------------------------------------------------------------------

/// Adds a system entry to the lookup result: a word already present gets
/// the system frequency added to its own (modulo 2^64, as the release
/// build adds), another word is appended.
pub open spec fn merge_entry(acc: Seq<EntryView>, e: EntryView) -> Seq<EntryView> {
    let j = word_index(acc, e.word);
    if j < 0 {
        acc.push(e)
    } else {
        acc.update(j, EntryView { frequency: ((acc[j].frequency + e.frequency) % 0x1_0000_0000_0000_0000) as u64, ..acc[j] })
    }
}

/// Merges system entries, in order, into the user entries.
pub open spec fn merge_all(acc: Seq<EntryView>, sys: Seq<EntryView>) -> Seq<EntryView>
    decreases sys.len(),
{
    if sys.len() == 0 { acc } else { merge_entry(merge_all(acc, sys.drop_last()), sys.last()) }
}

/// Inserts `e` into a list sorted by descending frequency, after every
/// entry whose frequency is at least as high.
pub open spec fn insert_by_freq(sorted: Seq<EntryView>, e: EntryView) -> Seq<EntryView> {
    let p = find_first(sorted, |x: EntryView| x.frequency < e.frequency);
    if p < 0 { sorted.push(e) } else { sorted.insert(p, e) }
}

/// Stable sort by descending frequency.
pub open spec fn sort_by_freq(s: Seq<EntryView>) -> Seq<EntryView>
    decreases s.len(),
{
    if s.len() == 0 { s } else { insert_by_freq(sort_by_freq(s.drop_last()), s.last()) }
}

/// What `lookup` returns: the user entries for the key with the system
/// entries merged in, sorted by descending frequency (stable).
pub open spec fn spec_lookup(user: TableView, system: TableView, key: Seq<char>) -> Seq<EntryView> {
    sort_by_freq(merge_all(table_get(user, key), table_get(system, key)))
}

/// Sorted by non-increasing frequency.
pub open spec fn freq_sorted(s: Seq<EntryView>) -> bool {
    forall|i: int, j: int| 0 <= i < j < s.len() ==> s[i].frequency >= s[j].frequency
}

proof fn lemma_insert_by_freq(sorted: Seq<EntryView>, e: EntryView)
    requires
        freq_sorted(sorted),
    ensures
        freq_sorted(insert_by_freq(sorted, e)),
        insert_by_freq(sorted, e).to_multiset() == sorted.to_multiset().insert(e),
{
    let pred = |x: EntryView| x.frequency < e.frequency;
    lemma_find_first(sorted, pred);
    let p = find_first(sorted, pred);
    let r = insert_by_freq(sorted, e);
    if p < 0 {
        vstd::seq_lib::to_multiset_build(sorted, e);
        assert forall|i: int, j: int| 0 <= i < j < r.len() implies r[i].frequency >= r[j].frequency by {
            if j == r.len() - 1 {
                assert(!pred(sorted[i]));
            }
        }
    } else {
        vstd::seq_lib::to_multiset_insert(sorted, p, e);
        assert forall|i: int, j: int| 0 <= i < j < r.len() implies r[i].frequency >= r[j].frequency by {
            if i < p && j == p {
                assert(!pred(sorted[i]));
            } else if i == p && j > p {
                assert(pred(sorted[p]));
                assert(sorted[p].frequency >= sorted[j - 1].frequency || j - 1 == p);
            } else if i < p && j > p {
                assert(sorted[i].frequency >= sorted[j - 1].frequency);
            } else if i > p {
                assert(sorted[i - 1].frequency >= sorted[j - 1].frequency);
            }
        }
    }
}

/// The stable frequency sort yields a list ordered by non-increasing
/// frequency that holds exactly the input entries.
pub proof fn lemma_sort_by_freq(s: Seq<EntryView>)
    ensures
        freq_sorted(sort_by_freq(s)),
        sort_by_freq(s).to_multiset() == s.to_multiset(),
    decreases s.len(),
{
    if s.len() == 0 {
    } else {
        lemma_sort_by_freq(s.drop_last());
        lemma_insert_by_freq(sort_by_freq(s.drop_last()), s.last());
        vstd::seq_lib::to_multiset_build(s.drop_last(), s.last());
        assert(s =~= s.drop_last().push(s.last()));
    }
}

// ---------------------------------------------------------------------
// The built-in system table
// ---------------------------------------------------------------------

/// Frequency of the i-th built-in character of a syllable: 100 for the
/// first, one less for each next, never below 1.
pub open spec fn builtin_frequency(i: int) -> u64 {
    if i < 99 { (100 - i) as u64 } else { 1 }
}

/// The entries of one built-in row.
pub open spec fn row_entries(row: (Seq<char>, Seq<char>)) -> Seq<EntryView> {
    Seq::new(
        row.1.len(),
        |i: int| EntryView { word: seq![row.1[i]], pinyin: row.0, frequency: builtin_frequency(i), last_used: None },
    )
}

/// The system table built from table rows, later rows replacing earlier
/// rows with the same syllable.
pub open spec fn rows_table(rows: Seq<(Seq<char>, Seq<char>)>) -> TableView
    decreases rows.len(),
{
    if rows.len() == 0 {
        Seq::empty()
    } else {
        table_insert(rows_table(rows.drop_last()), rows.last().0, row_entries(rows.last()))
    }
}

// ---------------------------------------------------------------------
// Text format
// ---------------------------------------------------------------------

/// One stored line without its newline:
/// `word \t pinyin \t frequency \t last_used` (0 when never used).
pub open spec fn entry_body(e: EntryView) -> Seq<char> {
    e.word + seq!['\t'] + e.pinyin + seq!['\t'] + spec_u64_digits(e.frequency as nat) + seq!['\t']
        + spec_u64_digits((match e.last_used { Some(t) => t, None => 0 }) as nat)
}

/// The stored lines of a list of entries.
pub open spec fn format_entries(es: Seq<EntryView>) -> Seq<char>
    decreases es.len(),
{
    if es.len() == 0 { Seq::empty() } else { format_entries(es.drop_last()) + entry_body(es.last()) + seq!['\n'] }
}

/// The text of a table: the lines of each bucket, bucket by bucket.
pub open spec fn format_table(t: TableView) -> Seq<char>
    decreases t.len(),
{
    if t.len() == 0 { Seq::empty() } else { format_table(t.drop_last()) + format_entries(t.last().1) }
}

/// The entry a line describes, with its key: lines with fewer than two
/// tab-separated fields describe nothing; a missing or unreadable
/// frequency is 1; a missing or unreadable timestamp is none.
pub open spec fn entry_of_line(line: Seq<char>) -> Option<(Seq<char>, EntryView)> {
    let parts = spec_split(line, '\t');
    if parts.len() >= 2 {
        let freq = if parts.len() > 2 {
            match spec_parse_u64(parts[2]) { Some(v) => v, None => 1u64 }
        } else {
            1u64
        };
        let last = if parts.len() > 3 { spec_parse_u64(parts[3]) } else { None };
        Some((parts[1], EntryView { word: parts[0], pinyin: parts[1], frequency: freq, last_used: last }))
    } else {
        None
    }
}

/// The line of two tab-separated fields `word`, `pinyin` describes that
/// word under that pinyin, with frequency 1 and no timestamp.
pub proof fn lemma_entry_of_two_fields(w: Seq<char>, p: Seq<char>)
    requires
        lacks(w, '\t'),
        lacks(p, '\t'),
    ensures
        entry_of_line(w.push('\t') + p) == Some((p, EntryView { word: w, pinyin: p, frequency: 1, last_used: None })),
{
    crate::text::lemma_split_single(w, '\t');
    crate::text::lemma_split_single(p, '\t');
    crate::text::lemma_split_concat(w, p, '\t');
}

/// The line `word`, `pinyin`, `n` (tab-separated, the fields without
/// tabs) describes that word under that pinyin with frequency `n` when
/// `n` reads as a decimal `u64` (1 otherwise), whether or not more fields
/// follow; with no more fields there is no timestamp, and with more the
/// timestamp is what the fourth field reads as.
pub proof fn lemma_entry_of_fields(w: Seq<char>, p: Seq<char>, n: Seq<char>, rest: Option<Seq<char>>)
    requires
        lacks(w, '\t'),
        lacks(p, '\t'),
        lacks(n, '\t'),
    ensures
        ({
            let head = (w.push('\t') + p).push('\t') + n;
            let line = match rest { None => head, Some(r) => head.push('\t') + r };
            let freq = match spec_parse_u64(n) { Some(v) => v, None => 1u64 };
            let last = match rest { None => None, Some(r) => spec_parse_u64(spec_split(r, '\t')[0]) };
            entry_of_line(line) == Some((p, EntryView { word: w, pinyin: p, frequency: freq, last_used: last }))
        }),
{
    crate::text::lemma_split_single(w, '\t');
    crate::text::lemma_split_single(p, '\t');
    crate::text::lemma_split_single(n, '\t');
    crate::text::lemma_split_concat(w, p, '\t');
    let x1 = w.push('\t') + p;
    crate::text::lemma_split_concat(x1, n, '\t');
    let head = x1.push('\t') + n;
    assert(spec_split(head, '\t') =~= seq![w, p, n]);
    match rest {
        None => {},
        Some(r) => {
            crate::text::lemma_split_concat(head, r, '\t');
            let parts = spec_split(head.push('\t') + r, '\t');
            assert(parts == seq![w, p, n] + spec_split(r, '\t'));
            assert(spec_split(r, '\t').len() >= 1);
            assert(parts[3] == spec_split(r, '\t')[0]);
        },
    }
}

/// Adds the entries of `lines`, in order, to table `t`.
pub open spec fn parse_lines_into(t: TableView, lines: Seq<Seq<char>>) -> TableView
    decreases lines.len(),
{
    if lines.len() == 0 {
        t
    } else {
        let t0 = parse_lines_into(t, lines.drop_last());
        match entry_of_line(lines.last()) {
            Some((k, e)) => table_append(t0, k, e),
            None => t0,
        }
    }
}

/// The table that stored text describes.
pub open spec fn parse_table_text(text: Seq<char>) -> TableView {
    parse_lines_into(Seq::empty(), spec_lines(text))
}

// ---------------------------------------------------------------------
// Executable table operations
// ---------------------------------------------------------------------

/// Finds the bucket for `key`.
fn table_find(t: &Vec<(String, Vec<DictEntry>)>, key: &[char]) -> (r: Option<usize>)
    ensures
        match r {
            Some(i) => i < t@.len() && table_index(table_view(t@), key@) == i,
            None => table_index(table_view(t@), key@) < 0,
        },
{
    let ghost tv = table_view(t@);
    let mut i: usize = 0;
    while i < t.len()
        invariant
            i <= t.len(),
            tv == table_view(t@),
            forall|j: int| 0 <= j < i ==> !has_key(key@)(#[trigger] tv[j]),
        decreases t.len() - i,
    {
        let k = chars_of(t[i].0.as_str());
        assert(tv[i as int].0 == t@[i as int].0@);
        if crate::pinyin::same_chars(k.as_slice(), key) {
            proof {
                lemma_find_first_at(tv, has_key(key@), i as int);
            }
            return Some(i);
        }
        i = i + 1;
    }
    proof {
        lemma_find_first_none(tv, has_key(key@));
    }
    None
}

/// Finds the first entry for `word`.
fn entries_find(es: &Vec<DictEntry>, word: &String) -> (r: Option<usize>)
    ensures
        match r {
            Some(i) => i < es@.len() && word_index(entries_view(es@), word@) == i,
            None => word_index(entries_view(es@), word@) < 0,
        },
{
    let ghost ev = entries_view(es@);
    let mut i: usize = 0;
    while i < es.len()
        invariant
            i <= es.len(),
            ev == entries_view(es@),
            forall|j: int| 0 <= j < i ==> !is_word(word@)(#[trigger] ev[j]),
        decreases es.len() - i,
    {
        assert(ev[i as int] == es@[i as int]@);
        if es[i].word == *word {
            proof {
                lemma_find_first_at(ev, is_word(word@), i as int);
            }
            return Some(i);
        }
        i = i + 1;
    }
    proof {
        lemma_find_first_none(ev, is_word(word@));
    }
    None
}

/// Appends `e` under its key `key`.
fn table_append_exec(t: &mut Vec<(String, Vec<DictEntry>)>, key: &[char], e: DictEntry)
    ensures
        table_view(final(t)@) == table_append(table_view(old(t)@), key@, e@),
{
    let ghost tv = table_view(t@);
    match table_find(t, key) {
        Some(i) => {
            let mut bucket = (String::new(), Vec::new());
            std::mem::swap(&mut bucket, &mut t[i]);
            assert(tv[i as int] == (bucket.0@, entries_view(bucket.1@)));
            let ghost old_es = entries_view(bucket.1@);
            bucket.1.push(e);
            assert(entries_view(bucket.1@) =~= old_es.push(e@));
            t.set(i, bucket);
            proof {
                assert(tv[i as int].0 == key@) by {
                    crate::text::lemma_find_first(tv, has_key(key@));
                }
                assert(table_view(t@) =~= tv.update(i as int, (key@, old_es.push(e@))));
            }
        }
        None => {
            let ks = string_from_chars(key);
            let mut es: Vec<DictEntry> = Vec::new();
            es.push(e);
            assert(entries_view(es@) =~= seq![e@]);
            t.push((ks, es));
            assert(table_view(t@) =~= tv.push((key@, seq![e@])));
        }
    }
}

/// Stores `es` under `key`, replacing what was there.
fn table_insert_exec(t: &mut Vec<(String, Vec<DictEntry>)>, key: &[char], es: Vec<DictEntry>)
    ensures
        table_view(final(t)@) == table_insert(table_view(old(t)@), key@, entries_view(es@)),
{
    let ghost tv = table_view(t@);
    let ks = string_from_chars(key);
    match table_find(t, key) {
        Some(i) => {
            t.set(i, (ks, es));
            assert(table_view(t@) =~= tv.update(i as int, (key@, entries_view(es@))));
        }
        None => {
            t.push((ks, es));
            assert(table_view(t@) =~= tv.push((key@, entries_view(es@))));
        }
    }
}


/// A copy of a list of entries.
fn duplicate_entries(es: &Vec<DictEntry>) -> (r: Vec<DictEntry>)
    ensures
        entries_view(r@) == entries_view(es@),
{
    let mut r: Vec<DictEntry> = Vec::new();
    let mut i: usize = 0;
    while i < es.len()
        invariant
            i <= es.len(),
            entries_view(r@) == entries_view(es@).take(i as int),
        decreases es.len() - i,
    {
        let ghost before = entries_view(r@);
        let d = es[i].duplicate();
        r.push(d);
        assert(entries_view(r@) =~= before.push(es@[i as int]@));
        i = i + 1;
        assert(entries_view(r@) =~= entries_view(es@).take(i as int));
    }
    assert(entries_view(es@).take(es.len() as int) =~= entries_view(es@));
    r
}

/// Sorts entries by descending frequency, keeping the order of equal
/// frequencies.
fn sort_entries_by_freq(v: &Vec<DictEntry>) -> (r: Vec<DictEntry>)
    ensures
        entries_view(r@) == sort_by_freq(entries_view(v@)),
{
    let ghost vv = entries_view(v@);
    let mut out: Vec<DictEntry> = Vec::new();
    let mut i: usize = 0;
    while i < v.len()
        invariant
            i <= v.len(),
            vv == entries_view(v@),
            entries_view(out@) == sort_by_freq(vv.take(i as int)),
        decreases v.len() - i,
    {
        let e = v[i].duplicate();
        let ghost sorted = entries_view(out@);
        let ghost pred = |x: EntryView| x.frequency < e@.frequency;
        let mut p: usize = 0;
        while p < out.len()
            invariant
                p <= out.len(),
                sorted == entries_view(out@),
                pred == (|x: EntryView| x.frequency < e@.frequency),
                forall|j: int| 0 <= j < p ==> !pred(#[trigger] sorted[j]),
            ensures
                p == out.len() || pred(sorted[p as int]),
            decreases out.len() - p,
        {
            assert(sorted[p as int] == out@[p as int]@);
            if out[p].frequency < e.frequency {
                assert(pred(sorted[p as int]));
                break;
            }
            p = p + 1;
        }
        proof {
            assert(vv.take(i + 1).drop_last() =~= vv.take(i as int));
            assert(vv.take(i + 1).last() == e@);
        }
        if p < out.len() {
            proof {
                assert(sorted[p as int] == out@[p as int]@);
                lemma_find_first_at(sorted, pred, p as int);
            }
            out.insert(p, e);
            assert(entries_view(out@) =~= sorted.insert(p as int, e@));
        } else {
            proof {
                lemma_find_first_none(sorted, pred);
            }
            out.push(e);
            assert(entries_view(out@) =~= sorted.push(e@));
        }
        i = i + 1;
    }
    assert(vv.take(v.len() as int) =~= vv);
    out
}

/// The system clock's time type.
#[verifier::external_type_specification]
#[verifier::external_body]
pub struct ExSystemTime(std::time::SystemTime);

/// The time now.
///
/// Trusted: calls `std::time::SystemTime::now`; nothing is stated of the
/// result, which depends on the time of the call.
#[verifier::external_body]
fn system_now() -> std::time::SystemTime {
    std::time::SystemTime::now()
}

/// The time elapsed from the Unix epoch to `t`, or `None` when `t` is
/// earlier than the epoch.
///
/// Trusted: calls `SystemTime::duration_since(UNIX_EPOCH)` and keeps its
/// `Ok` value; nothing is stated of the result, which depends on `t`,
/// a value Verus does not see into.
#[verifier::external_body]
fn since_epoch(t: &std::time::SystemTime) -> Option<std::time::Duration> {
    t.duration_since(std::time::UNIX_EPOCH).ok()
}

/// The whole seconds of a duration.
///
/// Trusted: calls `Duration::as_secs`; nothing is stated of the result,
/// which depends on `d`, a value Verus does not see into.
#[verifier::external_body]
fn whole_seconds(d: &std::time::Duration) -> u64 {
    d.as_secs()
}

/// Current Unix time in seconds, 0 when the clock reads earlier than the
/// epoch.
pub(crate) fn unix_time_now() -> u64 {
    let t = system_now();
    match since_epoch(&t) {
        Some(d) => whole_seconds(&d),
        None => 0,
    }
}

/// What `update_frequency` does to the user table: when learning is off
/// nothing; when the word is already stored under the key its frequency
/// grows by one (saturating) and it is stamped with `now`; otherwise a
/// new entry with frequency 1 and stamp `now` is appended under the key.
pub open spec fn spec_update_frequency(user: TableView, learning: bool, p: Seq<char>, w: Seq<char>, now: u64) -> TableView {
    if !learning {
        user
    } else {
        let i = table_index(user, p);
        let j = if i < 0 { -1 } else { word_index(user[i].1, w) };
        if i >= 0 && j >= 0 {
            let e = user[i].1[j];
            let f = if e.frequency == u64::MAX { u64::MAX } else { (e.frequency + 1) as u64 };
            user.update(i, (user[i].0, user[i].1.update(j, EntryView { frequency: f, last_used: Some(now), ..e })))
        } else {
            table_append(user, p, EntryView { word: w, pinyin: p, frequency: 1, last_used: Some(now) })
        }
    }
}

/// The built-in system table.
pub open spec fn builtin_system_table() -> TableView {
    rows_table(builtin_rows())
}

/// Dictionary manager: a read-only system table and a learning user table.
pub struct Dictionary {
    /// System dictionary (read-only)
    system_dict: Vec<(String, Vec<DictEntry>)>,
    /// User dictionary (read-write)
    user_dict: Vec<(String, Vec<DictEntry>)>,
    /// Configuration
    config: DictionaryConfig,
}

impl Dictionary {
    /// The system table.
    pub closed spec fn system(&self) -> TableView {
        table_view(self.system_dict@)
    }

    /// The user table.
    pub closed spec fn user(&self) -> TableView {
        table_view(self.user_dict@)
    }

    /// Whether commits are learned.
    pub closed spec fn learning(&self) -> bool {
        self.config.enable_learning
    }

    /// The configuration the dictionary was made with.
    pub closed spec fn spec_config(&self) -> DictionaryConfig {
        self.config
    }

    /// The configuration the dictionary was made with.
    pub fn config(&self) -> (c: &DictionaryConfig)
        ensures
            *c == self.spec_config(),
    {
        &self.config
    }

    /// A dictionary whose system table is the built-in table and whose
    /// user table is empty: what the dictionary holds when no dictionary
    /// file can be read.
    pub fn new(config: DictionaryConfig) -> (d: Dictionary)
        ensures
            d.system() == builtin_system_table(),
            d.user() == Seq::<(Seq<char>, Seq<EntryView>)>::empty(),
            storable_table(d.user()),
            d.spec_config() == config,
            d.learning() == config.enable_learning,
    {
        let system_dict = builtin_system_dict();
        let user_dict: Vec<(String, Vec<DictEntry>)> = Vec::new();
        assert(table_view(user_dict@) =~= Seq::<(Seq<char>, Seq<EntryView>)>::empty());
        Dictionary { system_dict, user_dict, config }
    }

    /// A dictionary from the texts of the dictionary files: the system
    /// table is read from `system_text` when there is one and is the
    /// built-in table otherwise; the user table is read from `user_text`
    /// when there is one and is empty otherwise.
    pub fn from_sources(config: DictionaryConfig, system_text: Option<&str>, user_text: Option<&str>) -> (d: Dictionary)
        ensures
            d.system() == (match system_text { Some(s) => parse_table_text(s@), None => builtin_system_table() }),
            d.user() == (match user_text { Some(s) => parse_table_text(s@), None => Seq::empty() }),
            storable_table(d.user()),
            d.spec_config() == config,
            d.learning() == config.enable_learning,
    {
        let system_dict = match system_text {
            Some(s) => parse_dictionary_text(s),
            None => builtin_system_dict(),
        };
        let user_dict = match user_text {
            Some(s) => parse_dictionary_text(s),
            None => {
                let v: Vec<(String, Vec<DictEntry>)> = Vec::new();
                assert(table_view(v@) =~= Seq::<(Seq<char>, Seq<EntryView>)>::empty());
                v
            }
        };
        proof {
            match user_text {
                Some(s) => lemma_parsed_table_storable(s@),
                None => {},
            }
        }
        Dictionary { system_dict, user_dict, config }
    }

    /// Lookup candidates for a pinyin string: the user entries first, the
    /// system entries merged in (a word in both gets the sum of its
    /// frequencies), sorted by descending frequency, ties in that order.
    pub fn lookup(&self, pinyin: &str) -> (r: Vec<DictEntry>)
        ensures
            entries_view(r@) == spec_lookup(self.user(), self.system(), pinyin@),
    {
        let key = chars_of(pinyin);
        let mut results: Vec<DictEntry> = match table_find(&self.user_dict, key.as_slice()) {
            Some(i) => duplicate_entries(&self.user_dict[i].1),
            None => Vec::new(),
        };
        proof {
            let u = self.user();
            if table_index(u, pinyin@) >= 0 {
                let i = table_index(u, pinyin@);
                assert(u[i].1 == entries_view(self.user_dict@[i].1@));
            }
            assert(entries_view(results@) =~= table_get(u, pinyin@));
        }
        let sys: Vec<DictEntry> = match table_find(&self.system_dict, key.as_slice()) {
            Some(i) => duplicate_entries(&self.system_dict[i].1),
            None => Vec::new(),
        };
        proof {
            let st = self.system();
            if table_index(st, pinyin@) >= 0 {
                let i = table_index(st, pinyin@);
                assert(st[i].1 == entries_view(self.system_dict@[i].1@));
            }
            assert(entries_view(sys@) =~= table_get(st, pinyin@));
        }
        let ghost user_es = entries_view(results@);
        let ghost sys_es = entries_view(sys@);
        let mut k: usize = 0;
        while k < sys.len()
            invariant
                k <= sys.len(),
                sys_es == entries_view(sys@),
                entries_view(results@) == merge_all(user_es, sys_es.take(k as int)),
            decreases sys.len() - k,
        {
            let ghost acc = entries_view(results@);
            let e = &sys[k];
            assert(sys_es[k as int] == e@);
            proof {
                assert(sys_es.take(k + 1).drop_last() =~= sys_es.take(k as int));
            }
            match entries_find(&results, &e.word) {
                Some(j) => {
                    let mut ne = results[j].duplicate();
                    ne.frequency = results[j].frequency.wrapping_add(e.frequency);
                    results.set(j, ne);
                    assert(entries_view(results@) =~= acc.update(
                        j as int,
                        EntryView { frequency: ((acc[j as int].frequency + e.frequency) % 0x1_0000_0000_0000_0000) as u64, ..acc[j as int] },
                    ));
                }
                None => {
                    results.push(e.duplicate());
                    assert(entries_view(results@) =~= acc.push(e@));
                }
            }
            k = k + 1;
        }
        assert(sys_es.take(sys.len() as int) =~= sys_es);
        sort_entries_by_freq(&results)
    }

    /// Update word frequency in the user dictionary, stamping the entry
    /// with the time `now` (see `spec_update_frequency`).
    pub fn update_frequency_at(&mut self, pinyin: &str, word: &str, now: u64)
        ensures
            final(self).user() == spec_update_frequency(old(self).user(), old(self).learning(), pinyin@, word@, now),
            storable_table(old(self).user()) && storable_text(pinyin@) && storable_text(word@) ==> storable_table(final(self).user()),
            final(self).system() == old(self).system(),
            final(self).spec_config() == old(self).spec_config(),
            final(self).learning() == old(self).learning(),
    {
        proof {
            if storable_table(self.user()) && storable_text(pinyin@) && storable_text(word@) {
                lemma_update_keeps_storable(self.user(), self.learning(), pinyin@, word@, now);
            }
        }
        if !self.config.enable_learning {
            return;
        }
        let key = chars_of(pinyin);
        let w = String::from_str(word);
        let ghost u = self.user();
        match table_find(&self.user_dict, key.as_slice()) {
            Some(i) => {
                match entries_find(&self.user_dict[i].1, &w) {
                    Some(j) => {
                        let mut bucket = (String::new(), Vec::new());
                        std::mem::swap(&mut bucket, &mut self.user_dict[i]);
                        let ghost old_es = entries_view(bucket.1@);
                        assert(u[i as int] == (bucket.0@, old_es));
                        let mut ne = bucket.1[j].duplicate();
                        ne.frequency = bucket.1[j].frequency.saturating_add(1);
                        ne.last_used = Some(now);
                        let ghost e = old_es[j as int];
                        bucket.1.set(j, ne);
                        assert(entries_view(bucket.1@) =~= old_es.update(
                            j as int,
                            EntryView { frequency: if e.frequency == u64::MAX { u64::MAX } else { (e.frequency + 1) as u64 }, last_used: Some(now), ..e },
                        ));
                        let ghost nb = (bucket.0@, entries_view(bucket.1@));
                        self.user_dict.set(i, bucket);
                        assert(self.user() =~= u.update(i as int, nb));
                        return;
                    }
                    None => {}
                }
            }
            None => {}
        }
        let entry = DictEntry { word: w, pinyin: string_from_chars(key.as_slice()), frequency: 1, last_used: Some(now) };
        table_append_exec(&mut self.user_dict, key.as_slice(), entry);
    }

    /// Update word frequency in the user dictionary, stamping the entry
    /// with the current time.
    pub fn update_frequency(&mut self, pinyin: &str, word: &str)
        ensures
            exists|now: u64|
                final(self).user() == spec_update_frequency(old(self).user(), old(self).learning(), pinyin@, word@, now),
            storable_table(old(self).user()) && storable_text(pinyin@) && storable_text(word@) ==> storable_table(final(self).user()),
            final(self).system() == old(self).system(),
            final(self).spec_config() == old(self).spec_config(),
            final(self).learning() == old(self).learning(),
    {
        let now = unix_time_now();
        self.update_frequency_at(pinyin, word, now);
    }

    /// The text of the user dictionary as it is saved: one line per entry,
    /// bucket by bucket (see `format_table`).
    pub fn format_user_dictionary(&self) -> (s: String)
        ensures
            s@ == format_table(self.user()),
    {
        format_table_exec(&self.user_dict)
    }
}

impl Default for Dictionary {
    /// The built-in dictionary under the default settings.
    fn default() -> (d: Self)
        ensures
            d.system() == builtin_system_table(),
            d.user() == Seq::<(Seq<char>, Seq<EntryView>)>::empty(),
            d.learning(),
    {
        Dictionary::new(DictionaryConfig::default())
    }
}

/// The built-in system table, one bucket per built-in syllable.
fn builtin_system_dict() -> (t: Vec<(String, Vec<DictEntry>)>)
    ensures
        table_view(t@) == builtin_system_table(),
{
    let rows = builtin_table();
    let ghost rv = rows_view(rows@);
    let mut t: Vec<(String, Vec<DictEntry>)> = Vec::new();
    let mut i: usize = 0;
    assert(table_view(t@) =~= rows_table(rv.take(0)));
    while i < rows.len()
        invariant
            i <= rows.len(),
            rv == rows_view(rows@),
            rv == builtin_rows(),
            table_view(t@) == rows_table(rv.take(i as int)),
        decreases rows.len() - i,
    {
        let syl = &rows[i].0;
        let chs = &rows[i].1;
        let ghost row = rv[i as int];
        assert(row == (syl@, chs@));
        let mut es: Vec<DictEntry> = Vec::new();
        let mut j: usize = 0;
        while j < chs.len()
            invariant
                j <= chs.len(),
                row == (syl@, chs@),
                entries_view(es@) == row_entries(row).take(j as int),
            decreases chs.len() - j,
        {
            let mut one: Vec<char> = Vec::new();
            one.push(chs[j]);
            let freq: u64 = if j < 99 { 100 - j as u64 } else { 1 };
            let e = DictEntry {
                word: string_from_chars(one.as_slice()),
                pinyin: string_from_chars(syl.as_slice()),
                frequency: freq,
                last_used: None,
            };
            assert(one@ =~= seq![chs@[j as int]]);
            assert(e@ == row_entries(row)[j as int]);
            let ghost before = entries_view(es@);
            es.push(e);
            assert(entries_view(es@) =~= before.push(row_entries(row)[j as int]));
            j = j + 1;
            assert(entries_view(es@) =~= row_entries(row).take(j as int));
        }
        assert(row_entries(row).take(chs.len() as int) =~= row_entries(row));
        table_insert_exec(&mut t, syl.as_slice(), es);
        proof {
            assert(rv.take(i + 1).drop_last() =~= rv.take(i as int));
            assert(rv.take(i + 1).last() == row);
        }
        i = i + 1;
    }
    assert(rv.take(rows.len() as int) =~= rv);
    t
}

/// The entry described by one stored line (see `entry_of_line`).
fn entry_of_line_exec(line: &[char]) -> (r: Option<DictEntry>)
    ensures
        match r {
            Some(e) => entry_of_line(line@) == Some((e.pinyin@, e@)),
            None => entry_of_line(line@) is None,
        },
{
    let parts = split_on(line, '\t');
    let ghost pv = parts@.map_values(|p: Vec<char>| p@);
    assert(parts@.len() == pv.len());
    if parts.len() >= 2 {
        assert(pv[0] == parts@[0]@ && pv[1] == parts@[1]@);
        let frequency: u64 = if parts.len() > 2 {
            assert(pv[2] == parts@[2]@);
            match parse_u64(parts[2].as_slice()) {
                Some(v) => v,
                None => 1,
            }
        } else {
            1
        };
        let last_used: Option<u64> = if parts.len() > 3 {
            assert(pv[3] == parts@[3]@);
            parse_u64(parts[3].as_slice())
        } else {
            None
        };
        Some(DictEntry {
            word: string_from_chars(parts[0].as_slice()),
            pinyin: string_from_chars(parts[1].as_slice()),
            frequency,
            last_used,
        })
    } else {
        None
    }
}

/// Reads a stored dictionary text into a table: each line with at least
/// two tab-separated fields becomes an entry under its pinyin (see
/// `parse_table_text`).
pub fn parse_dictionary_text(text: &str) -> (t: Vec<(String, Vec<DictEntry>)>)
    ensures
        table_view(t@) == parse_table_text(text@),
{
    let cs = chars_of(text);
    let lines = split_lines(cs.as_slice());
    let ghost lv = lines@.map_values(|p: Vec<char>| p@);
    let mut t: Vec<(String, Vec<DictEntry>)> = Vec::new();
    let mut i: usize = 0;
    assert(table_view(t@) =~= parse_lines_into(Seq::empty(), lv.take(0)));
    while i < lines.len()
        invariant
            i <= lines.len(),
            lv == lines@.map_values(|p: Vec<char>| p@),
            lv == spec_lines(text@),
            table_view(t@) == parse_lines_into(Seq::empty(), lv.take(i as int)),
        decreases lines.len() - i,
    {
        assert(lv[i as int] == lines@[i as int]@);
        proof {
            assert(lv.take(i + 1).drop_last() =~= lv.take(i as int));
        }
        match entry_of_line_exec(lines[i].as_slice()) {
            Some(e) => {
                let key = chars_of(e.pinyin.as_str());
                table_append_exec(&mut t, key.as_slice(), e);
            }
            None => {}
        }
        i = i + 1;
    }
    assert(lv.take(lines.len() as int) =~= lv);
    t
}

/// Appends characters to a string.
fn push_all(s: &mut String, cs: &[char])
    ensures
        final(s)@ == old(s)@ + cs@,
{
    let mut i: usize = 0;
    while i < cs.len()
        invariant
            i <= cs.len(),
            s@ == old(s)@ + cs@.take(i as int),
        decreases cs.len() - i,
    {
        push_char(s, cs[i]);
        i = i + 1;
        assert(s@ =~= old(s)@ + cs@.take(i as int));
    }
    assert(cs@.take(cs.len() as int) =~= cs@);
}

/// Appends the stored line of one entry.
fn push_entry_line(s: &mut String, e: &DictEntry)
    ensures
        final(s)@ == old(s)@ + entry_body(e@) + seq!['\n'],
{
    let w = chars_of(e.word.as_str());
    let p = chars_of(e.pinyin.as_str());
    let f = u64_to_chars(e.frequency);
    let l = u64_to_chars(match e.last_used { Some(t) => t, None => 0 });
    push_all(s, w.as_slice());
    push_char(s, '\t');
    push_all(s, p.as_slice());
    push_char(s, '\t');
    push_all(s, f.as_slice());
    push_char(s, '\t');
    push_all(s, l.as_slice());
    push_char(s, '\n');
    assert(s@ =~= old(s)@ + entry_body(e@) + seq!['\n']);
}

/// The stored text of a table.
fn format_table_exec(t: &Vec<(String, Vec<DictEntry>)>) -> (s: String)
    ensures
        s@ == format_table(table_view(t@)),
{
    let ghost tv = table_view(t@);
    let mut s = String::new();
    let mut i: usize = 0;
    while i < t.len()
        invariant
            i <= t.len(),
            tv == table_view(t@),
            s@ == format_table(tv.take(i as int)),
        decreases t.len() - i,
    {
        let es = &t[i].1;
        let ghost ev = entries_view(es@);
        assert(tv[i as int].1 == ev);
        let ghost s0 = s@;
        let mut j: usize = 0;
        while j < es.len()
            invariant
                j <= es.len(),
                ev == entries_view(es@),
                s@ == s0 + format_entries(ev.take(j as int)),
            decreases es.len() - j,
        {
            push_entry_line(&mut s, &es[j]);
            proof {
                assert(ev.take(j + 1).drop_last() =~= ev.take(j as int));
                assert(ev[j as int] == es@[j as int]@);
            }
            j = j + 1;
        }
        proof {
            assert(ev.take(es.len() as int) =~= ev);
            assert(tv.take(i + 1).drop_last() =~= tv.take(i as int));
        }
        i = i + 1;
    }
    assert(tv.take(t.len() as int) =~= tv);
    s
}


// ---------------------------------------------------------------------
// Laws of lookup and learning
// ---------------------------------------------------------------------

/// Some entry of the list is the word `w`.
pub open spec fn has_word(es: Seq<EntryView>, w: Seq<char>) -> bool {
    exists|j: int| 0 <= j < es.len() && (#[trigger] es[j]).word == w
}

proof fn lemma_merge_keeps_word(acc: Seq<EntryView>, sys: Seq<EntryView>, w: Seq<char>)
    requires
        has_word(acc, w),
    ensures
        has_word(merge_all(acc, sys), w),
    decreases sys.len(),
{
    if sys.len() > 0 {
        lemma_merge_keeps_word(acc, sys.drop_last(), w);
        let m = merge_all(acc, sys.drop_last());
        let e = sys.last();
        let j0 = choose|j: int| 0 <= j < m.len() && (#[trigger] m[j]).word == w;
        crate::text::lemma_find_first(m, is_word(e.word));
        let r = merge_entry(m, e);
        assert(r[j0].word == w);
    }
}

/// Lookup results are ordered by non-increasing frequency and hold
/// exactly the merged user and system entries for the key.
pub proof fn lemma_lookup_sorted(user: TableView, system: TableView, key: Seq<char>)
    ensures
        freq_sorted(spec_lookup(user, system, key)),
        spec_lookup(user, system, key).to_multiset()
            == merge_all(table_get(user, key), table_get(system, key)).to_multiset(),
{
    lemma_sort_by_freq(merge_all(table_get(user, key), table_get(system, key)));
}

/// The predicate "has frequency `f`".
pub open spec fn has_frequency(f: u64) -> spec_fn(EntryView) -> bool {
    |e: EntryView| e.frequency == f
}

proof fn lemma_filter_none(s: Seq<EntryView>, pred: spec_fn(EntryView) -> bool)
    requires
        forall|i: int| 0 <= i < s.len() ==> !pred(#[trigger] s[i]),
    ensures
        s.filter(pred) == Seq::<EntryView>::empty(),
    decreases s.len(),
{
    reveal_with_fuel(Seq::<_>::filter, 1);
    if s.len() > 0 {
        lemma_filter_none(s.drop_last(), pred);
        assert(!pred(s[s.len() - 1]));
    }
}

proof fn lemma_insert_by_freq_stable(sorted: Seq<EntryView>, e: EntryView, f: u64)
    requires
        freq_sorted(sorted),
    ensures
        insert_by_freq(sorted, e).filter(has_frequency(f))
            == (if e.frequency == f { sorted.filter(has_frequency(f)).push(e) } else { sorted.filter(has_frequency(f)) }),
{
    let hf = has_frequency(f);
    let pred = |x: EntryView| x.frequency < e.frequency;
    lemma_find_first(sorted, pred);
    let p = find_first(sorted, pred);
    reveal_with_fuel(Seq::<_>::filter, 2);
    if p < 0 {
        assert(sorted.push(e).drop_last() =~= sorted);
    } else {
        let a = sorted.take(p);
        let b = sorted.skip(p);
        assert(sorted.insert(p, e) =~= a + seq![e] + b);
        assert(sorted =~= a + b);
        Seq::filter_distributes_over_add(a + seq![e], b, hf);
        Seq::filter_distributes_over_add(a, seq![e], hf);
        Seq::filter_distributes_over_add(a, b, hf);
        assert(seq![e].drop_last() =~= Seq::<EntryView>::empty());
        if e.frequency == f {
            assert forall|i: int| 0 <= i < b.len() implies !hf(#[trigger] b[i]) by {
                assert(pred(sorted[p]));
                assert(b[i] == sorted[p + i]);
                assert(sorted[p].frequency >= sorted[p + i].frequency || i == 0);
            }
            lemma_filter_none(b, hf);
            assert(a.filter(hf) + seq![e] =~= a.filter(hf).push(e));
            assert(a.filter(hf) + Seq::<EntryView>::empty() =~= a.filter(hf));
        } else {
            assert(a.filter(hf) + Seq::<EntryView>::empty() =~= a.filter(hf));
        }
    }
}

/// The frequency sort is stable: the entries of any one frequency keep
/// their order.
pub proof fn lemma_sort_by_freq_stable(s: Seq<EntryView>, f: u64)
    ensures
        sort_by_freq(s).filter(has_frequency(f)) == s.filter(has_frequency(f)),
    decreases s.len(),
{
    reveal_with_fuel(Seq::<_>::filter, 1);
    if s.len() > 0 {
        lemma_sort_by_freq_stable(s.drop_last(), f);
        lemma_sort_by_freq(s.drop_last());
        lemma_insert_by_freq_stable(sort_by_freq(s.drop_last()), s.last(), f);
    }
}

/// Merging system entries keeps the user entries first, in their order,
/// with their words, pinyin and timestamps.
proof fn lemma_merge_keeps_user_first(acc: Seq<EntryView>, sys: Seq<EntryView>)
    ensures
        merge_all(acc, sys).len() >= acc.len(),
        forall|i: int| 0 <= i < acc.len() ==> {
            &&& (#[trigger] merge_all(acc, sys)[i]).word == acc[i].word
            &&& merge_all(acc, sys)[i].pinyin == acc[i].pinyin
            &&& merge_all(acc, sys)[i].last_used == acc[i].last_used
        },
    decreases sys.len(),
{
    if sys.len() > 0 {
        lemma_merge_keeps_user_first(acc, sys.drop_last());
        let m = merge_all(acc, sys.drop_last());
        crate::text::lemma_find_first(m, is_word(sys.last().word));
        assert forall|i: int| 0 <= i < acc.len() implies {
            &&& (#[trigger] merge_all(acc, sys)[i]).word == acc[i].word
            &&& merge_all(acc, sys)[i].pinyin == acc[i].pinyin
            &&& merge_all(acc, sys)[i].last_used == acc[i].last_used
        } by {
            assert(m[i].word == acc[i].word);
        }
    }
}

/// Tie order of a lookup: the user entries come first in merge order,
/// in the order the user table holds them, followed by the system
/// entries that are not user words; and entries of equal frequency keep
/// that merge order in the result. So at equal frequency a user word
/// comes before a word only the system table holds.
pub proof fn lemma_lookup_tie_order(user: TableView, system: TableView, key: Seq<char>, f: u64)
    ensures
        ({
            let u = table_get(user, key);
            let m = merge_all(u, table_get(system, key));
            &&& m.len() >= u.len()
            &&& forall|i: int| 0 <= i < u.len() ==> (#[trigger] m[i]).word == u[i].word
            &&& spec_lookup(user, system, key).filter(has_frequency(f)) == m.filter(has_frequency(f))
        }),
{
    let u = table_get(user, key);
    lemma_merge_keeps_user_first(u, table_get(system, key));
    lemma_sort_by_freq_stable(merge_all(u, table_get(system, key)), f);
}

/// A word learned under a pinyin is found when that pinyin is looked up
/// (when learning is enabled).
pub proof fn lemma_learned_word_found(
    user: TableView,
    system: TableView,
    p: Seq<char>,
    w: Seq<char>,
    now: u64,
)
    ensures
        has_word(spec_lookup(spec_update_frequency(user, true, p, w, now), system, p), w),
{
    let u2 = spec_update_frequency(user, true, p, w, now);
    crate::text::lemma_find_first(user, has_key(p));
    let i = table_index(user, p);
    if i >= 0 {
        crate::text::lemma_find_first(user[i].1, is_word(w));
    }
    // the updated table holds `w` under `p`
    crate::text::lemma_find_first(u2, has_key(p));
    let i2 = table_index(u2, p);
    let j = if i < 0 { -1 } else { word_index(user[i].1, w) };
    if i >= 0 && j >= 0 {
        assert(u2[i].0 == p);
        lemma_find_first_at(u2, has_key(p), i);
        assert(u2[i].1[j].word == w);
        assert(has_word(table_get(u2, p), w));
    } else if i >= 0 {
        assert(u2[i].0 == p);
        lemma_find_first_at(u2, has_key(p), i);
        let es = u2[i].1;
        assert(es[es.len() - 1].word == w);
        assert(has_word(table_get(u2, p), w));
    } else {
        assert forall|k: int| 0 <= k < user.len() implies !has_key(p)(#[trigger] u2[k]) by {
            assert(u2[k] == user[k]);
        }
        lemma_find_first_at(u2, has_key(p), user.len() as int);
        assert(table_get(u2, p)[0].word == w);
        assert(has_word(table_get(u2, p), w));
    }
    let m = merge_all(table_get(u2, p), table_get(system, p));
    lemma_merge_keeps_word(table_get(u2, p), table_get(system, p), w);
    lemma_sort_by_freq(m);
    let jm = choose|k: int| 0 <= k < m.len() && (#[trigger] m[k]).word == w;
    let r = sort_by_freq(m);
    assert(m.to_multiset().count(m[jm]) > 0) by {
        m.to_multiset_ensures();
        assert(m.contains(m[jm]));
    }
    r.to_multiset_ensures();
    assert(r.contains(m[jm]));
    let jr = choose|k: int| 0 <= k < r.len() && r[k] == m[jm];
    assert(r[jr].word == w);
}

// ---------------------------------------------------------------------
// Saving and loading
// ---------------------------------------------------------------------

/// The entry as it reads back after saving: a missing timestamp is
/// saved as 0.
pub open spec fn saved_entry(e: EntryView) -> EntryView {
    EntryView { last_used: Some(match e.last_used { Some(t) => t, None => 0 }), ..e }
}

/// The table as it reads back after saving.
pub open spec fn saved_table(t: TableView) -> TableView {
    t.map_values(|b: (Seq<char>, Seq<EntryView>)| (b.0, b.1.map_values(|e: EntryView| saved_entry(e))))
}

/// A table that the text format can hold: distinct keys, no empty
/// bucket, every entry stored under its own pinyin, and no tab or
/// newline inside a word or a pinyin.
pub open spec fn storable_table(t: TableView) -> bool {
    &&& forall|i: int, j: int| 0 <= i < j < t.len() ==> t[i].0 != t[j].0
    &&& forall|i: int| 0 <= i < t.len() ==> #[trigger] t[i].1.len() > 0
    &&& forall|i: int, j: int| 0 <= i < t.len() && 0 <= j < t[i].1.len() ==> {
        let e = #[trigger] t[i].1[j];
        &&& e.pinyin == t[i].0
        &&& lacks(e.word, '\t') && lacks(e.word, '\n')
        &&& lacks(e.pinyin, '\t') && lacks(e.pinyin, '\n')
    }
}

/// A word or key that can be stored: no tab and no newline.
pub open spec fn storable_text(s: Seq<char>) -> bool {
    lacks(s, '\t') && lacks(s, '\n')
}

/// Appending an entry stored under its own pinyin keeps a table storable.
proof fn lemma_append_storable(t: TableView, key: Seq<char>, e: EntryView)
    requires
        storable_table(t),
        e.pinyin == key,
        storable_text(e.word),
        storable_text(e.pinyin),
    ensures
        storable_table(table_append(t, key, e)),
{
    crate::text::lemma_find_first(t, has_key(key));
    let i = table_index(t, key);
    let r = table_append(t, key, e);
    if i < 0 {
        assert forall|a: int, b: int| 0 <= a < b < r.len() implies r[a].0 != r[b].0 by {
            if b == t.len() {
                assert(!has_key(key)(t[a]));
            }
        }
        assert forall|a: int, b: int| 0 <= a < r.len() && 0 <= b < r[a].1.len() implies {
            let x = #[trigger] r[a].1[b];
            &&& x.pinyin == r[a].0
            &&& lacks(x.word, '\t') && lacks(x.word, '\n')
            &&& lacks(x.pinyin, '\t') && lacks(x.pinyin, '\n')
        } by {
            if a < t.len() {
                assert(r[a] == t[a]);
            }
        }
        assert forall|a: int| 0 <= a < r.len() implies #[trigger] r[a].1.len() > 0 by {
            if a < t.len() {
                assert(r[a] == t[a]);
            }
        }
    } else {
        assert(t[i].0 == key);
        assert forall|a: int, b: int| 0 <= a < b < r.len() implies r[a].0 != r[b].0 by {
            assert(r[a].0 == t[a].0 && r[b].0 == t[b].0);
        }
        assert forall|a: int, b: int| 0 <= a < r.len() && 0 <= b < r[a].1.len() implies {
            let x = #[trigger] r[a].1[b];
            &&& x.pinyin == r[a].0
            &&& lacks(x.word, '\t') && lacks(x.word, '\n')
            &&& lacks(x.pinyin, '\t') && lacks(x.pinyin, '\n')
        } by {
            if a == i {
                if b < t[i].1.len() {
                    assert(r[a].1[b] == t[i].1[b]);
                }
            } else {
                assert(r[a] == t[a]);
            }
        }
        assert forall|a: int| 0 <= a < r.len() implies #[trigger] r[a].1.len() > 0 by {
            if a != i {
                assert(r[a] == t[a]);
            }
        }
    }
}

/// Learning a word whose word and pinyin are storable keeps the user
/// table storable.
pub proof fn lemma_update_keeps_storable(user: TableView, learning: bool, p: Seq<char>, w: Seq<char>, now: u64)
    requires
        storable_table(user),
        storable_text(p),
        storable_text(w),
    ensures
        storable_table(spec_update_frequency(user, learning, p, w, now)),
{
    if learning {
        crate::text::lemma_find_first(user, has_key(p));
        let i = table_index(user, p);
        let j = if i < 0 { -1 } else { word_index(user[i].1, w) };
        if i >= 0 {
            crate::text::lemma_find_first(user[i].1, is_word(w));
        }
        if i >= 0 && j >= 0 {
            let r = spec_update_frequency(user, learning, p, w, now);
            assert forall|a: int, b: int| 0 <= a < b < r.len() implies r[a].0 != r[b].0 by {
                assert(r[a].0 == user[a].0 && r[b].0 == user[b].0);
            }
            assert forall|a: int, b: int| 0 <= a < r.len() && 0 <= b < r[a].1.len() implies {
                let x = #[trigger] r[a].1[b];
                &&& x.pinyin == r[a].0
                &&& lacks(x.word, '\t') && lacks(x.word, '\n')
                &&& lacks(x.pinyin, '\t') && lacks(x.pinyin, '\n')
            } by {
                if a == i {
                    assert(user[i].1[b].pinyin == user[i].0);
                } else {
                    assert(r[a] == user[a]);
                }
            }
            assert forall|a: int| 0 <= a < r.len() implies #[trigger] r[a].1.len() > 0 by {
                if a != i {
                    assert(r[a] == user[a]);
                }
            }
        } else {
            lemma_append_storable(user, p, EntryView { word: w, pinyin: p, frequency: 1, last_used: Some(now) });
        }
    }
}

/// Reading lines without newlines into a storable table keeps it
/// storable.
proof fn lemma_parse_lines_storable(t: TableView, lines: Seq<Seq<char>>)
    requires
        storable_table(t),
        forall|k: int| 0 <= k < lines.len() ==> lacks(#[trigger] lines[k], '\n'),
    ensures
        storable_table(parse_lines_into(t, lines)),
    decreases lines.len(),
{
    if lines.len() > 0 {
        lemma_parse_lines_storable(t, lines.drop_last());
        let t0 = parse_lines_into(t, lines.drop_last());
        let line = lines.last();
        assert(lacks(line, '\n')) by {
            assert(lines[lines.len() - 1] == line);
        }
        match entry_of_line(line) {
            Some((k, e)) => {
                let parts = crate::text::spec_split(line, '\t');
                crate::text::lemma_split_lacks(line, '\t', '\t');
                crate::text::lemma_split_lacks(line, '\t', '\n');
                assert(lacks(parts[0], '\t') && lacks(parts[0], '\n'));
                assert(lacks(parts[1], '\t') && lacks(parts[1], '\n'));
                lemma_append_storable(t0, k, e);
            },
            None => {},
        }
    }
}

/// Every table read from text is storable: its words and keys hold no
/// tab or newline, each entry sits under its own pinyin, keys are
/// distinct and buckets are not empty.
pub proof fn lemma_parsed_table_storable(text: Seq<char>)
    ensures
        storable_table(parse_table_text(text)),
{
    crate::text::lemma_lines_lack(text, '\n');
    lemma_parse_lines_storable(Seq::empty(), crate::text::spec_lines(text));
}

/// The lines, without newlines, of a list of entries.
pub open spec fn entries_lines(es: Seq<EntryView>) -> Seq<Seq<char>> {
    es.map_values(|e: EntryView| entry_body(e))
}

/// The lines, without newlines, of a table.
pub open spec fn table_lines(t: TableView) -> Seq<Seq<char>>
    decreases t.len(),
{
    if t.len() == 0 { Seq::empty() } else { table_lines(t.drop_last()) + entries_lines(t.last().1) }
}

proof fn lemma_digits_lack(n: nat, c: char)
    requires
        !('0' <= c && c <= '9'),
    ensures
        lacks(spec_u64_digits(n), c),
        spec_u64_digits(n).len() > 0,
        spec_u64_digits(n).last() != c,
{
    lemma_u64_digits_value(n);
    let d = spec_u64_digits(n);
    assert forall|i: int| 0 <= i < d.len() implies #[trigger] d[i] != c by {
        assert(crate::text::is_digit(d[i]));
    }
}

proof fn lemma_body_shape(e: EntryView)
    requires
        lacks(e.word, '\t') && lacks(e.word, '\n'),
        lacks(e.pinyin, '\t') && lacks(e.pinyin, '\n'),
    ensures
        lacks(entry_body(e), '\n'),
        entry_body(e).len() > 0,
        entry_body(e).last() != '\r',
        entry_of_line(entry_body(e)) == Some((e.pinyin, saved_entry(e))),
{
    let fd = spec_u64_digits(e.frequency as nat);
    let lt: u64 = match e.last_used { Some(t) => t, None => 0 };
    let ld = spec_u64_digits(lt as nat);
    lemma_digits_lack(e.frequency as nat, '\n');
    lemma_digits_lack(lt as nat, '\n');
    lemma_digits_lack(e.frequency as nat, '\t');
    lemma_digits_lack(lt as nat, '\t');
    lemma_digits_lack(lt as nat, '\r');
    let tab: Seq<char> = seq!['\t'];
    let b = entry_body(e);
    assert(b =~= e.word + tab + e.pinyin + tab + fd + tab + ld);
    assert forall|i: int| 0 <= i < b.len() implies #[trigger] b[i] != '\n' by {
        let w = e.word.len();
        let p = e.pinyin.len();
        let f = fd.len();
        if i < w {
            assert(b[i] == e.word[i]);
        } else if i == w {
        } else if i < w + 1 + p {
            assert(b[i] == e.pinyin[i - w - 1]);
        } else if i == w + 1 + p {
        } else if i < w + 2 + p + f {
            assert(b[i] == fd[i - w - 2 - p]);
        } else if i == w + 2 + p + f {
        } else {
            assert(b[i] == ld[i - w - 3 - p - f]);
        }
    }
    assert(b.last() == ld.last());
    // splitting the line at tabs gives back its four fields
    let e0: Seq<char> = Seq::empty();
    lemma_split_fold_append(e0, e.word, '\t');
    assert(e0 + e.word =~= e.word);
    lemma_split_fold_sep(e.word, '\t');
    assert(e.word.push('\t') =~= e.word + tab);
    let x1 = e.word + tab;
    lemma_split_fold_append(x1, e.pinyin, '\t');
    let x2 = x1 + e.pinyin;
    lemma_split_fold_sep(x2, '\t');
    assert(x2.push('\t') =~= x2 + tab);
    let x3 = x2 + tab;
    lemma_split_fold_append(x3, fd, '\t');
    let x4 = x3 + fd;
    lemma_split_fold_sep(x4, '\t');
    assert(x4.push('\t') =~= x4 + tab);
    let x5 = x4 + tab;
    lemma_split_fold_append(x5, ld, '\t');
    assert(x5 + ld =~= b);
    assert(Seq::<char>::empty() + e.word =~= e.word);
    assert(Seq::<char>::empty() + e.pinyin =~= e.pinyin);
    assert(Seq::<char>::empty() + fd =~= fd);
    assert(Seq::<char>::empty() + ld =~= ld);
    let parts = spec_split(b, '\t');
    assert(parts =~= seq![e.word, e.pinyin, fd, ld]);
    lemma_u64_format_parse(e.frequency);
    lemma_u64_format_parse(lt);
}

proof fn lemma_format_entries_lines(x: Seq<char>, es: Seq<EntryView>)
    requires
        lines_fold(x).1.len() == 0,
        forall|j: int| 0 <= j < es.len() ==> {
            let e = #[trigger] es[j];
            lacks(e.word, '\t') && lacks(e.word, '\n') && lacks(e.pinyin, '\t') && lacks(e.pinyin, '\n')
        },
    ensures
        lines_fold(x + format_entries(es)) == (lines_fold(x).0 + entries_lines(es), Seq::<char>::empty()),
    decreases es.len(),
{
    if es.len() == 0 {
        assert(x + format_entries(es) =~= x);
        assert(lines_fold(x).0 + entries_lines(es) =~= lines_fold(x).0);
    } else {
        let d = es.drop_last();
        assert forall|j: int| 0 <= j < d.len() implies {
            let e = #[trigger] d[j];
            lacks(e.word, '\t') && lacks(e.word, '\n') && lacks(e.pinyin, '\t') && lacks(e.pinyin, '\n')
        } by {
            assert(d[j] == es[j]);
        }
        lemma_format_entries_lines(x, d);
        let e = es.last();
        lemma_body_shape(e);
        let y = x + format_entries(d);
        lemma_lines_fold_line(y, entry_body(e));
        assert(x + format_entries(es) =~= y + entry_body(e) + seq!['\n']);
        assert(entries_lines(es) =~= entries_lines(d).push(entry_body(e)));
        assert(lines_fold(x).0 + entries_lines(d) + seq![entry_body(e)] =~= lines_fold(x).0 + entries_lines(es));
    }
}

proof fn lemma_format_table_lines(t: TableView)
    requires
        storable_table(t),
    ensures
        lines_fold(format_table(t)) == (table_lines(t), Seq::<char>::empty()),
        spec_lines(format_table(t)) == table_lines(t),
    decreases t.len(),
{
    if t.len() == 0 {
    } else {
        let d = t.drop_last();
        assert(storable_table(d)) by {
            assert forall|i: int| 0 <= i < d.len() implies #[trigger] d[i].1.len() > 0 by {
                assert(d[i] == t[i]);
            }
            assert forall|i: int, j: int| 0 <= i < d.len() && 0 <= j < d[i].1.len() implies {
                let e = #[trigger] d[i].1[j];
                &&& e.pinyin == d[i].0
                &&& lacks(e.word, '\t') && lacks(e.word, '\n')
                &&& lacks(e.pinyin, '\t') && lacks(e.pinyin, '\n')
            } by {
                assert(d[i] == t[i]);
            }
        }
        lemma_format_table_lines(d);
        let es = t.last().1;
        assert forall|j: int| 0 <= j < es.len() implies {
            let e = #[trigger] es[j];
            lacks(e.word, '\t') && lacks(e.word, '\n') && lacks(e.pinyin, '\t') && lacks(e.pinyin, '\n')
        } by {
            assert(es[j] == t[t.len() - 1].1[j]);
        }
        lemma_format_entries_lines(format_table(d), es);
    }
}

proof fn lemma_parse_lines_concat(t: TableView, a: Seq<Seq<char>>, b: Seq<Seq<char>>)
    ensures
        parse_lines_into(t, a + b) == parse_lines_into(parse_lines_into(t, a), b),
    decreases b.len(),
{
    if b.len() == 0 {
        assert(a + b =~= a);
    } else {
        lemma_parse_lines_concat(t, a, b.drop_last());
        assert((a + b).drop_last() =~= a + b.drop_last());
        assert((a + b).last() == b.last());
    }
}

proof fn lemma_parse_bucket(t: TableView, k: Seq<char>, es: Seq<EntryView>)
    requires
        table_index(t, k) < 0,
        es.len() > 0,
        forall|j: int| 0 <= j < es.len() ==> {
            let e = #[trigger] es[j];
            &&& e.pinyin == k
            &&& lacks(e.word, '\t') && lacks(e.word, '\n')
            &&& lacks(e.pinyin, '\t') && lacks(e.pinyin, '\n')
        },
    ensures
        parse_lines_into(t, entries_lines(es)) == t.push((k, es.map_values(|e: EntryView| saved_entry(e)))),
    decreases es.len(),
{
    let e = es.last();
    assert(es[es.len() - 1] == e);
    assert(e.pinyin == k);
    lemma_body_shape(e);
    let ls = entries_lines(es);
    assert(ls.drop_last() =~= entries_lines(es.drop_last()));
    assert(ls.last() == entry_body(e));
    assert(parse_lines_into(t, ls) == table_append(parse_lines_into(t, ls.drop_last()), k, saved_entry(e)));
    if es.len() == 1 {
        assert(entries_lines(es.drop_last()) =~= Seq::<Seq<char>>::empty());
        assert(parse_lines_into(t, ls.drop_last()) == t);
        assert(es.map_values(|e: EntryView| saved_entry(e)) =~= seq![saved_entry(e)]);
    } else {
        let d = es.drop_last();
        assert forall|j: int| 0 <= j < d.len() implies {
            let e = #[trigger] d[j];
            &&& e.pinyin == k
            &&& lacks(e.word, '\t') && lacks(e.word, '\n')
            &&& lacks(e.pinyin, '\t') && lacks(e.pinyin, '\n')
        } by {
            assert(d[j] == es[j]);
        }
        lemma_parse_bucket(t, k, d);
        let t1 = t.push((k, d.map_values(|e: EntryView| saved_entry(e))));
        crate::text::lemma_find_first(t, has_key(k));
        assert forall|j: int| 0 <= j < t.len() implies !has_key(k)(#[trigger] t1[j]) by {
            assert(t1[j] == t[j]);
        }
        lemma_find_first_at(t1, has_key(k), t.len() as int);
        assert(es.map_values(|e: EntryView| saved_entry(e)) =~= d.map_values(|e: EntryView| saved_entry(e)).push(
            saved_entry(e),
        ));
        assert(table_append(t1, k, saved_entry(e)) =~= t.push((k, es.map_values(|e: EntryView| saved_entry(e)))));
    }
}

/// Saving a table and reading the text back gives the table again, with
/// every missing timestamp read as 0, provided the text format can hold
/// the table (see `storable_table`).
pub proof fn lemma_save_load_roundtrip(t: TableView)
    requires
        storable_table(t),
    ensures
        parse_table_text(format_table(t)) == saved_table(t),
    decreases t.len(),
{
    lemma_format_table_lines(t);
    lemma_parse_table_lines(t);
}

proof fn lemma_parse_table_lines(t: TableView)
    requires
        storable_table(t),
    ensures
        parse_lines_into(Seq::empty(), table_lines(t)) == saved_table(t),
    decreases t.len(),
{
    if t.len() == 0 {
        assert(saved_table(t) =~= Seq::<(Seq<char>, Seq<EntryView>)>::empty());
    } else {
        let d = t.drop_last();
        assert(storable_table(d)) by {
            assert forall|i: int| 0 <= i < d.len() implies #[trigger] d[i].1.len() > 0 by {
                assert(d[i] == t[i]);
            }
            assert forall|i: int, j: int| 0 <= i < d.len() && 0 <= j < d[i].1.len() implies {
                let e = #[trigger] d[i].1[j];
                &&& e.pinyin == d[i].0
                &&& lacks(e.word, '\t') && lacks(e.word, '\n')
                &&& lacks(e.pinyin, '\t') && lacks(e.pinyin, '\n')
            } by {
                assert(d[i] == t[i]);
            }
        }
        lemma_parse_table_lines(d);
        let (k, es) = t.last();
        lemma_parse_lines_concat(Seq::empty(), table_lines(d), entries_lines(es));
        let sd = saved_table(d);
        assert forall|j: int| 0 <= j < sd.len() implies !has_key(k)(#[trigger] sd[j]) by {
            assert(sd[j].0 == t[j].0);
            assert(t[j].0 != t[t.len() - 1].0);
        }
        lemma_find_first_none(sd, has_key(k));
        assert forall|j: int| 0 <= j < es.len() implies {
            let e = #[trigger] es[j];
            &&& e.pinyin == k
            &&& lacks(e.word, '\t') && lacks(e.word, '\n')
            &&& lacks(e.pinyin, '\t') && lacks(e.pinyin, '\n')
        } by {
            assert(es[j] == t[t.len() - 1].1[j]);
        }
        assert(es.len() > 0);
        lemma_parse_bucket(sd, k, es);
        assert(saved_table(t) =~= sd.push((k, es.map_values(|e: EntryView| saved_entry(e)))));
    }
}

} // verus!
