//! Character-level text helpers: conversions between strings and
//! character vectors, decimal numbers, line and field splitting.

use vstd::prelude::*;

verus! {

/// Appends one character to a string.
///
/// Trusted: calls `String::push`, which, as std documents, appends the
/// character to the end of the string; the contract says exactly that of
/// the character view.
#[verifier::external_body]
pub(crate) fn push_char(s: &mut String, c: char)
    ensures
        final(s)@ == old(s)@.push(c),
{
    s.push(c);
}

/// The character of an ASCII code.
pub(crate) fn char_of_ascii(raw: u32) -> (c: char)
    requires
        raw < 0x80,
    ensures
        c == raw as char,
{
    (raw as u8) as char
}

/// The characters of a string slice, in order.
pub fn chars_of(s: &str) -> (v: Vec<char>)
    ensures
        v@ == s@,
{
    let mut v: Vec<char> = Vec::new();
    for c in it: s.chars()
        invariant
            v@ == it.seq().take(it.index() as int),
    {
        v.push(c);
    }
    v
}

/// A string holding the given characters, in order.
pub fn string_from_chars(v: &[char]) -> (s: String)
    ensures
        s@ == v@,
{
    let mut s = String::new();
    let mut i: usize = 0;
    while i < v.len()
        invariant
            i <= v.len(),
            s@ == v@.take(i as int),
        decreases v.len() - i,
    {
        push_char(&mut s, v[i]);
        i = i + 1;
        assert(v@.take(i as int) =~= v@.take((i - 1) as int).push(v@[i - 1]));
    }
    assert(v@.take(v.len() as int) =~= v@);
    s
}


// ---------------------------------------------------------------------
// First match in a sequence
// ---------------------------------------------------------------------

/// Index of the first element satisfying `pred`, or -1 if there is none.
pub open spec fn find_first<T>(s: Seq<T>, pred: spec_fn(T) -> bool) -> int
    decreases s.len(),
{
    if s.len() == 0 {
        -1
    } else if pred(s[0]) {
        0
    } else {
        let r = find_first(s.drop_first(), pred);
        if r < 0 { -1 } else { r + 1 }
    }
}

/// `find_first` is the least index that satisfies the predicate, or -1
/// when none does.
pub proof fn lemma_find_first<T>(s: Seq<T>, pred: spec_fn(T) -> bool)
    ensures
        -1 <= find_first(s, pred) < s.len(),
        find_first(s, pred) >= 0 ==> pred(s[find_first(s, pred)]),
        forall|j: int| 0 <= j < find_first(s, pred) ==> !pred(#[trigger] s[j]),
        find_first(s, pred) < 0 ==> forall|j: int| 0 <= j < s.len() ==> !pred(#[trigger] s[j]),
    decreases s.len(),
{
    if s.len() > 0 && !pred(s[0]) {
        let t = s.drop_first();
        lemma_find_first(t, pred);
        assert forall|j: int| 0 <= j < find_first(s, pred) implies !pred(#[trigger] s[j]) by {
            if j > 0 {
                assert(s[j] == t[j - 1]);
            }
        }
        if find_first(s, pred) < 0 {
            assert forall|j: int| 0 <= j < s.len() implies !pred(#[trigger] s[j]) by {
                if j > 0 {
                    assert(s[j] == t[j - 1]);
                }
            }
        }
    }
}

/// A search that stops at index `i` found the first match.
pub proof fn lemma_find_first_at<T>(s: Seq<T>, pred: spec_fn(T) -> bool, i: int)
    requires
        0 <= i < s.len(),
        pred(s[i]),
        forall|j: int| 0 <= j < i ==> !pred(#[trigger] s[j]),
    ensures
        find_first(s, pred) == i,
{
    lemma_find_first(s, pred);
    let r = find_first(s, pred);
    if r < 0 {
        assert(!pred(s[i]));
    } else if r < i {
        assert(!pred(s[r]));
    } else if r > i {
        assert(!pred(s[i]));
    }
}

/// A search that looked at every element and found none.
pub proof fn lemma_find_first_none<T>(s: Seq<T>, pred: spec_fn(T) -> bool)
    requires
        forall|j: int| 0 <= j < s.len() ==> !pred(#[trigger] s[j]),
    ensures
        find_first(s, pred) == -1,
{
    lemma_find_first(s, pred);
    if find_first(s, pred) >= 0 {
        assert(!pred(s[find_first(s, pred)]));
    }
}

// ---------------------------------------------------------------------
// Decimal numbers
// ---------------------------------------------------------------------

/// An ASCII decimal digit.
pub open spec fn is_digit(c: char) -> bool {
    '0' <= c && c <= '9'
}

/// The value of a digit character.
pub open spec fn digit_value(c: char) -> nat {
    (c as int - '0' as int) as nat
}

/// A non-empty run of ASCII digits.
pub open spec fn all_digits(s: Seq<char>) -> bool {
    forall|i: int| 0 <= i < s.len() ==> is_digit(#[trigger] s[i])
}

/// The value of a sequence of decimal digits, most significant first.
pub open spec fn digits_value(s: Seq<char>) -> nat
    decreases s.len(),
{
    if s.len() == 0 {
        0
    } else {
        digits_value(s.drop_last()) * 10 + digit_value(s.last())
    }
}

/// What `str::parse::<u64>` gives: an optional `+`, then at least one
/// digit and nothing else, with a value that fits in 64 bits.
pub open spec fn spec_parse_u64(s: Seq<char>) -> Option<u64> {
    let d = if s.len() > 0 && s[0] == '+' { s.drop_first() } else { s };
    if d.len() > 0 && all_digits(d) && digits_value(d) <= u64::MAX {
        Some(digits_value(d) as u64)
    } else {
        None
    }
}

proof fn lemma_digits_value_monotone(s: Seq<char>, n: int)
    requires
        0 <= n <= s.len(),
    ensures
        digits_value(s.take(n)) <= digits_value(s),
    decreases s.len(),
{
    if n < s.len() {
        assert(s.drop_last().take(n) =~= s.take(n));
        lemma_digits_value_monotone(s.drop_last(), n);
    } else {
        assert(s.take(n) =~= s);
    }
}

/// Parses a decimal `u64` as `str::parse::<u64>` does.
pub fn parse_u64(s: &[char]) -> (r: Option<u64>)
    ensures
        r == spec_parse_u64(s@),
{
    let mut start: usize = 0;
    if s.len() > 0 && s[0] == '+' {
        start = 1;
    }
    let ghost d: Seq<char> = s@.skip(start as int);
    assert(d =~= (if s@.len() > 0 && s@[0] == '+' { s@.drop_first() } else { s@ }));
    if start >= s.len() {
        return None;
    }
    let mut value: u64 = 0;
    let mut i: usize = start;
    while i < s.len()
        invariant
            start <= i <= s.len(),
            d == s@.skip(start as int),
            d == (if s@.len() > 0 && s@[0] == '+' { s@.drop_first() } else { s@ }),
            d.len() > 0,
            all_digits(d.take(i - start)),
            value == digits_value(d.take(i - start)),
        decreases s.len() - i,
    {
        let c = s[i];
        assert(d[i - start] == s@[i as int]);
        if !('0' <= c && c <= '9') {
            assert(!is_digit(d[i - start]));
            assert(!all_digits(d));
            return None;
        }
        let dv = (c as u32 - '0' as u32) as u64;
        let ghost k: int = i - start;
        assert(d.take(k + 1).drop_last() =~= d.take(k));
        assert(d.take(k + 1).last() == c);
        if value > 1844674407370955161u64 || (value == 1844674407370955161u64 && dv > 5) {
            proof {
                assert(value * 10 + dv > u64::MAX) by (nonlinear_arith)
                    requires
                        value > 1844674407370955161u64 || (value == 1844674407370955161u64 && dv > 5),
                ;
                assert(digits_value(d.take(k + 1)) > u64::MAX);
                if all_digits(d) {
                    lemma_digits_value_monotone(d, k + 1);
                }
            }
            return None;
        }
        value = value * 10 + dv;
        i = i + 1;
        assert(all_digits(d.take(i - start))) by {
            assert forall|j: int| 0 <= j < d.take(i - start).len() implies is_digit(
                #[trigger] d.take(i - start)[j],
            ) by {
                if j < k {
                    assert(d.take(i - start)[j] == d.take(k)[j]);
                }
            }
        }
    }
    assert(d.take(s.len() - start) =~= d);
    Some(value)
}

/// The decimal digits of a number, most significant first, without
/// leading zeros ("0" for zero).
pub open spec fn spec_u64_digits(n: nat) -> Seq<char>
    decreases n,
{
    if n < 10 {
        seq![(n + '0' as nat) as char]
    } else {
        spec_u64_digits(n / 10).push(((n % 10) + '0' as nat) as char)
    }
}

/// The digits of a number are digits, and read back as the number.
pub proof fn lemma_u64_digits_value(n: nat)
    ensures
        all_digits(spec_u64_digits(n)),
        spec_u64_digits(n).len() > 0,
        digits_value(spec_u64_digits(n)) == n,
        spec_u64_digits(n)[0] != '+',
    decreases n,
{
    if n < 10 {
        assert(spec_u64_digits(n).drop_last() =~= Seq::<char>::empty());
        assert(((n + '0' as nat) as char) as int == n + 48);
        assert(digits_value(spec_u64_digits(n).drop_last()) == 0);
        assert(digit_value(spec_u64_digits(n).last()) == n);
    } else {
        lemma_u64_digits_value(n / 10);
        let s = spec_u64_digits(n);
        assert((((n % 10) + '0' as nat) as char) as int == n % 10 + 48);
        assert(n == (n / 10) * 10 + n % 10);
        assert(digit_value(s.last()) == n % 10);
        assert(digits_value(s) == digits_value(s.drop_last()) * 10 + digit_value(s.last()));
        assert(s.drop_last() =~= spec_u64_digits(n / 10));
        assert forall|j: int| 0 <= j < s.len() implies is_digit(#[trigger] s[j]) by {
            if j < s.len() - 1 {
                assert(s[j] == spec_u64_digits(n / 10)[j]);
            }
        }
    }
}

/// Formatting a `u64` in decimal and parsing it back gives the number.
pub proof fn lemma_u64_format_parse(n: u64)
    ensures
        spec_parse_u64(spec_u64_digits(n as nat)) == Some(n),
{
    lemma_u64_digits_value(n as nat);
}

/// The decimal digits of a `u64`, as `u64::to_string` writes them.
pub fn u64_to_chars(n: u64) -> (v: Vec<char>)
    ensures
        v@ == spec_u64_digits(n as nat),
    decreases n,
{
    if n < 10 {
        let c = char_of_digit(n);
        let mut v: Vec<char> = Vec::new();
        v.push(c);
        assert(v@ =~= seq![(n as nat + '0' as nat) as char]);
        v
    } else {
        let mut v = u64_to_chars(n / 10);
        v.push(char_of_digit(n % 10));
        v
    }
}

fn char_of_digit(d: u64) -> (c: char)
    requires
        d < 10,
    ensures
        c == (d as nat + '0' as nat) as char,
{
    if d == 0 { '0' }
    else if d == 1 { '1' }
    else if d == 2 { '2' }
    else if d == 3 { '3' }
    else if d == 4 { '4' }
    else if d == 5 { '5' }
    else if d == 6 { '6' }
    else if d == 7 { '7' }
    else if d == 8 { '8' }
    else { '9' }
}

// ---------------------------------------------------------------------
// Splitting into fields and lines
// ---------------------------------------------------------------------

/// Left fold behind `split`: the finished pieces and the piece in progress.
pub open spec fn split_fold(s: Seq<char>, sep: char) -> (Seq<Seq<char>>, Seq<char>)
    decreases s.len(),
{
    if s.len() == 0 {
        (Seq::empty(), Seq::empty())
    } else {
        let (pieces, cur) = split_fold(s.drop_last(), sep);
        if s.last() == sep {
            (pieces.push(cur), Seq::empty())
        } else {
            (pieces, cur.push(s.last()))
        }
    }
}

/// What `str::split(sep)` yields: the pieces between separators, always
/// at least one.
pub open spec fn spec_split(s: Seq<char>, sep: char) -> Seq<Seq<char>> {
    split_fold(s, sep).0.push(split_fold(s, sep).1)
}

/// Splits at every occurrence of `sep`, as `str::split` does.
pub fn split_on(s: &[char], sep: char) -> (r: Vec<Vec<char>>)
    ensures
        r@.map_values(|p: Vec<char>| p@) == spec_split(s@, sep),
{
    let mut pieces: Vec<Vec<char>> = Vec::new();
    let mut cur: Vec<char> = Vec::new();
    let mut i: usize = 0;
    while i < s.len()
        invariant
            i <= s.len(),
            (pieces@.map_values(|p: Vec<char>| p@), cur@) == split_fold(s@.take(i as int), sep),
        decreases s.len() - i,
    {
        let c = s[i];
        assert(s@.take(i + 1).drop_last() =~= s@.take(i as int));
        if c == sep {
            pieces.push(cur);
            cur = Vec::new();
            assert(pieces@.map_values(|p: Vec<char>| p@) =~= split_fold(s@.take(i as int), sep).0.push(
                split_fold(s@.take(i as int), sep).1,
            ));
        } else {
            cur.push(c);
        }
        i = i + 1;
    }
    assert(s@.take(s.len() as int) =~= s@);
    let ghost before = pieces@.map_values(|p: Vec<char>| p@);
    pieces.push(cur);
    assert(pieces@.map_values(|p: Vec<char>| p@) =~= before.push(cur@));
    pieces
}

/// A line without the carriage return that may precede its newline.
pub open spec fn strip_cr(l: Seq<char>) -> Seq<char> {
    if l.len() > 0 && l.last() == '\r' { l.drop_last() } else { l }
}

/// Left fold behind `lines`: finished lines and the line in progress.
pub open spec fn lines_fold(s: Seq<char>) -> (Seq<Seq<char>>, Seq<char>)
    decreases s.len(),
{
    if s.len() == 0 {
        (Seq::empty(), Seq::empty())
    } else {
        let (ls, cur) = lines_fold(s.drop_last());
        if s.last() == '\n' {
            (ls.push(strip_cr(cur)), Seq::empty())
        } else {
            (ls, cur.push(s.last()))
        }
    }
}

/// What `lines()` yields: lines split at `\n` or `\r\n`, without a final
/// empty line after a trailing newline.
pub open spec fn spec_lines(s: Seq<char>) -> Seq<Seq<char>> {
    let (ls, cur) = lines_fold(s);
    if cur.len() > 0 { ls.push(cur) } else { ls }
}

/// Splits text into lines as `str::lines` and `BufRead::lines` do.
pub fn split_lines(s: &[char]) -> (r: Vec<Vec<char>>)
    ensures
        r@.map_values(|p: Vec<char>| p@) == spec_lines(s@),
{
    let mut lines: Vec<Vec<char>> = Vec::new();
    let mut cur: Vec<char> = Vec::new();
    let mut i: usize = 0;
    while i < s.len()
        invariant
            i <= s.len(),
            (lines@.map_values(|p: Vec<char>| p@), cur@) == lines_fold(s@.take(i as int)),
        decreases s.len() - i,
    {
        let c = s[i];
        assert(s@.take(i + 1).drop_last() =~= s@.take(i as int));
        if c == '\n' {
            let ghost before = lines@.map_values(|p: Vec<char>| p@);
            if cur.len() > 0 && cur[cur.len() - 1] == '\r' {
                cur.pop();
            }
            lines.push(cur);
            cur = Vec::new();
            assert(lines@.map_values(|p: Vec<char>| p@) =~= before.push(
                strip_cr(lines_fold(s@.take(i as int)).1),
            ));
        } else {
            cur.push(c);
        }
        i = i + 1;
    }
    assert(s@.take(s.len() as int) =~= s@);
    if cur.len() > 0 {
        let ghost before = lines@.map_values(|p: Vec<char>| p@);
        lines.push(cur);
        assert(lines@.map_values(|p: Vec<char>| p@) =~= before.push(lines_fold(s@).1));
    }
    lines
}


/// `s` does not contain `c`.
pub open spec fn lacks(s: Seq<char>, c: char) -> bool {
    forall|i: int| 0 <= i < s.len() ==> #[trigger] s[i] != c
}

/// Characters without a separator extend the piece in progress.
pub proof fn lemma_split_fold_append(x: Seq<char>, a: Seq<char>, sep: char)
    requires
        lacks(a, sep),
    ensures
        split_fold(x + a, sep) == (split_fold(x, sep).0, split_fold(x, sep).1 + a),
    decreases a.len(),
{
    if a.len() == 0 {
        assert(x + a =~= x);
        assert(split_fold(x, sep).1 + a =~= split_fold(x, sep).1);
    } else {
        lemma_split_fold_append(x, a.drop_last(), sep);
        assert((x + a).drop_last() =~= x + a.drop_last());
        assert((x + a).last() == a.last());
        assert(a.last() != sep);
        assert(split_fold(x, sep).1 + a.drop_last() + seq![a.last()] =~= split_fold(x, sep).1 + a);
    }
}

/// A separator closes the piece in progress.
pub proof fn lemma_split_fold_sep(x: Seq<char>, sep: char)
    ensures
        split_fold(x.push(sep), sep) == (split_fold(x, sep).0.push(split_fold(x, sep).1), Seq::<char>::empty()),
{
    assert(x.push(sep).drop_last() =~= x);
}

/// Characters without a newline extend the line in progress.
pub proof fn lemma_lines_fold_append(x: Seq<char>, a: Seq<char>)
    requires
        lacks(a, '\n'),
    ensures
        lines_fold(x + a) == (lines_fold(x).0, lines_fold(x).1 + a),
    decreases a.len(),
{
    if a.len() == 0 {
        assert(x + a =~= x);
        assert(lines_fold(x).1 + a =~= lines_fold(x).1);
    } else {
        lemma_lines_fold_append(x, a.drop_last());
        assert((x + a).drop_last() =~= x + a.drop_last());
        assert((x + a).last() == a.last());
        assert(a.last() != '\n');
        assert(lines_fold(x).1 + a.drop_last() + seq![a.last()] =~= lines_fold(x).1 + a);
    }
}

/// A complete line, not ending in a carriage return, after finished lines.
pub proof fn lemma_lines_fold_line(x: Seq<char>, a: Seq<char>)
    requires
        lacks(a, '\n'),
        lines_fold(x).1.len() == 0,
        a.len() > 0 ==> a.last() != '\r',
    ensures
        lines_fold(x + a + seq!['\n']) == (lines_fold(x).0.push(a), Seq::<char>::empty()),
{
    lemma_lines_fold_append(x, a);
    assert((x + a + seq!['\n']).drop_last() =~= x + a);
    assert(lines_fold(x).1 + a =~= a);
}

/// The pieces of a split hold neither the separator nor any character
/// the split text lacks.
pub proof fn lemma_split_lacks(s: Seq<char>, sep: char, c: char)
    requires
        c == sep || lacks(s, c),
    ensures
        forall|k: int| 0 <= k < spec_split(s, sep).len() ==> lacks(#[trigger] spec_split(s, sep)[k], c),
    decreases s.len(),
{
    if s.len() > 0 {
        lemma_split_lacks(s.drop_last(), sep, c);
        let (ps, cur) = split_fold(s.drop_last(), sep);
        assert(lacks(cur, c)) by {
            assert(spec_split(s.drop_last(), sep)[ps.len() as int] == cur);
        }
        assert forall|k: int| 0 <= k < ps.len() implies lacks(ps[k], c) by {
            assert(spec_split(s.drop_last(), sep)[k] == ps[k]);
        }
        if s.last() != sep {
            assert(s.last() != c) by {
                if c != sep {
                    assert(s[s.len() - 1] != c);
                }
            }
            assert forall|i: int| 0 <= i < cur.push(s.last()).len() implies #[trigger] cur.push(s.last())[i] != c by {
                if i < cur.len() {
                    assert(cur.push(s.last())[i] == cur[i]);
                }
            }
        }
    }
}

/// The lines of a text hold no newline, nor any character the text lacks.
pub proof fn lemma_lines_lack(s: Seq<char>, c: char)
    requires
        c == '\n' || lacks(s, c),
    ensures
        forall|k: int| 0 <= k < spec_lines(s).len() ==> lacks(#[trigger] spec_lines(s)[k], c),
{
    lemma_lines_fold_lack(s, c);
}

proof fn lemma_lines_fold_lack(s: Seq<char>, c: char)
    requires
        c == '\n' || lacks(s, c),
    ensures
        forall|k: int| 0 <= k < lines_fold(s).0.len() ==> lacks(#[trigger] lines_fold(s).0[k], c),
        lacks(lines_fold(s).1, c),
    decreases s.len(),
{
    if s.len() > 0 {
        lemma_lines_fold_lack(s.drop_last(), c);
        let (ls, cur) = lines_fold(s.drop_last());
        if s.last() == '\n' {
            assert(lacks(strip_cr(cur), c)) by {
                if cur.len() > 0 && cur.last() == '\r' {
                    assert forall|i: int| 0 <= i < cur.drop_last().len() implies #[trigger] cur.drop_last()[i] != c by {
                        assert(cur.drop_last()[i] == cur[i]);
                    }
                }
            }
        } else {
            assert(s.last() != c) by {
                if c != '\n' {
                    assert(s[s.len() - 1] != c);
                }
            }
            assert forall|i: int| 0 <= i < cur.push(s.last()).len() implies #[trigger] cur.push(s.last())[i] != c by {
                if i < cur.len() {
                    assert(cur.push(s.last())[i] == cur[i]);
                }
            }
        }
    }
}

/// A text without the separator splits into itself alone.
pub proof fn lemma_split_single(w: Seq<char>, sep: char)
    requires
        lacks(w, sep),
    ensures
        spec_split(w, sep) == seq![w],
{
    lemma_split_fold_append(Seq::empty(), w, sep);
    assert(Seq::<char>::empty() + w =~= w);
    assert(Seq::<char>::empty() + w =~= w);
    assert(split_fold(Seq::<char>::empty(), sep).1 + w =~= w);
}

proof fn lemma_split_fold_after_sep(x: Seq<char>, r: Seq<char>, sep: char)
    ensures
        split_fold(x.push(sep) + r, sep) == (spec_split(x, sep) + split_fold(r, sep).0, split_fold(r, sep).1),
    decreases r.len(),
{
    if r.len() == 0 {
        assert(x.push(sep) + r =~= x.push(sep));
        lemma_split_fold_sep(x, sep);
        assert(spec_split(x, sep) + Seq::<Seq<char>>::empty() =~= spec_split(x, sep));
    } else {
        lemma_split_fold_after_sep(x, r.drop_last(), sep);
        assert((x.push(sep) + r).drop_last() =~= x.push(sep) + r.drop_last());
        assert((x.push(sep) + r).last() == r.last());
        let (ps, cur) = split_fold(r.drop_last(), sep);
        if r.last() == sep {
            assert(spec_split(x, sep) + ps.push(cur) =~= (spec_split(x, sep) + ps).push(cur));
        }
    }
}

/// Splitting around a separator splits each side: the pieces of
/// `x`, separator, `r` are the pieces of `x` followed by those of `r`.
pub proof fn lemma_split_concat(x: Seq<char>, r: Seq<char>, sep: char)
    ensures
        spec_split(x.push(sep) + r, sep) == spec_split(x, sep) + spec_split(r, sep),
{
    lemma_split_fold_after_sep(x, r, sep);
    let (ps, cur) = split_fold(r, sep);
    assert((spec_split(x, sep) + ps).push(cur) =~= spec_split(x, sep) + ps.push(cur));
}

} // verus!
