//! Character classes and scanning primitives over sequences of characters.

use vstd::prelude::*;

verus! {

/// The characters that Unicode classes as `White_Space`.
pub open spec fn is_whitespace(c: char) -> bool {
    ||| '\u{9}' <= c <= '\u{d}'
    ||| c == ' '
    ||| c == '\u{85}'
    ||| c == '\u{a0}'
    ||| c == '\u{1680}'
    ||| '\u{2000}' <= c <= '\u{200a}'
    ||| c == '\u{2028}'
    ||| c == '\u{2029}'
    ||| c == '\u{202f}'
    ||| c == '\u{205f}'
    ||| c == '\u{3000}'
}

/// Whether `c` is whitespace.
pub fn char_is_whitespace(c: char) -> (r: bool)
    ensures
        r == is_whitespace(c),
{
    ('\u{9}' <= c && c <= '\u{d}') || c == ' ' || c == '\u{85}' || c == '\u{a0}' || c
        == '\u{1680}' || ('\u{2000}' <= c && c <= '\u{200a}') || c == '\u{2028}' || c
        == '\u{2029}' || c == '\u{202f}' || c == '\u{205f}' || c == '\u{3000}'
}

/// The ten ASCII decimal digits.
pub open spec fn is_digit(c: char) -> bool {
    '0' <= c <= '9'
}

/// Whether `c` is a decimal digit.
pub fn char_is_digit(c: char) -> (r: bool)
    ensures
        r == is_digit(c),
{
    '0' <= c && c <= '9'
}

/// The texts that a list of strings holds.
pub open spec fn texts_of(list: Seq<String>) -> Seq<Seq<char>> {
    list.map_values(|text: String| text@)
}

/// End of the longest run of non-whitespace characters of `s` that starts at `i`.
pub open spec fn word_end(s: Seq<char>, i: int) -> int
    decreases s.len() - i,
{
    if 0 <= i < s.len() && !is_whitespace(s[i]) {
        word_end(s, i + 1)
    } else {
        i
    }
}

/// End of the longest run of whitespace characters of `s` that starts at `i`.
pub open spec fn gap_end(s: Seq<char>, i: int) -> int
    decreases s.len() - i,
{
    if 0 <= i < s.len() && is_whitespace(s[i]) {
        gap_end(s, i + 1)
    } else {
        i
    }
}

/// End of the longest run of decimal digits of `s` that starts at `i`.
pub open spec fn digits_end(s: Seq<char>, i: int) -> int
    decreases s.len() - i,
{
    if 0 <= i < s.len() && is_digit(s[i]) {
        digits_end(s, i + 1)
    } else {
        i
    }
}

/// Position of the first line feed of `s` at or after `i`, or the length of
/// `s` where there is none.
pub open spec fn line_end(s: Seq<char>, i: int) -> int
    decreases s.len() - i,
{
    if 0 <= i < s.len() && s[i] != '\n' {
        line_end(s, i + 1)
    } else {
        i
    }
}

/// Start of the trailing whitespace of `s`: the least `j` such that every
/// character from `j` on is whitespace.
pub open spec fn trim_end(s: Seq<char>) -> int
    decreases s.len(),
{
    if s.len() > 0 && is_whitespace(s.last()) {
        trim_end(s.drop_last())
    } else {
        s.len() as int
    }
}

/// `s` without its leading and trailing whitespace.
pub open spec fn trimmed(s: Seq<char>) -> Seq<char> {
    let start = gap_end(s, 0);
    let end = trim_end(s);
    if start < end {
        s.subrange(start, end)
    } else {
        Seq::empty()
    }
}

/// A word ends inside the text, holds no whitespace, and is followed by
/// whitespace or by nothing.
pub proof fn lemma_word_end_bounds(s: Seq<char>, i: int)
    requires
        0 <= i <= s.len(),
    ensures
        i <= word_end(s, i) <= s.len(),
        forall|k: int| i <= k < word_end(s, i) ==> !is_whitespace(#[trigger] s[k]),
        word_end(s, i) < s.len() ==> is_whitespace(s[word_end(s, i)]),
    decreases s.len() - i,
{
    if i < s.len() && !is_whitespace(s[i]) {
        lemma_word_end_bounds(s, i + 1);
    }
}

/// A gap ends inside the text, holds whitespace only, and is followed by a
/// character that is none, or by nothing.
pub proof fn lemma_gap_end_bounds(s: Seq<char>, i: int)
    requires
        0 <= i <= s.len(),
    ensures
        i <= gap_end(s, i) <= s.len(),
        forall|k: int| i <= k < gap_end(s, i) ==> is_whitespace(#[trigger] s[k]),
        gap_end(s, i) < s.len() ==> !is_whitespace(s[gap_end(s, i)]),
    decreases s.len() - i,
{
    if i < s.len() && is_whitespace(s[i]) {
        lemma_gap_end_bounds(s, i + 1);
    }
}

/// A run of digits ends inside the text, holds digits only, and is followed
/// by a character that is none, or by nothing.
pub proof fn lemma_digits_end_bounds(s: Seq<char>, i: int)
    requires
        0 <= i <= s.len(),
    ensures
        i <= digits_end(s, i) <= s.len(),
        forall|k: int| i <= k < digits_end(s, i) ==> is_digit(#[trigger] s[k]),
        digits_end(s, i) < s.len() ==> !is_digit(s[digits_end(s, i)]),
    decreases s.len() - i,
{
    if i < s.len() && is_digit(s[i]) {
        lemma_digits_end_bounds(s, i + 1);
    }
}

/// A line ends inside the text, holds no line feed, and is followed by a
/// line feed or by nothing.
pub proof fn lemma_line_end_bounds(s: Seq<char>, i: int)
    requires
        0 <= i <= s.len(),
    ensures
        i <= line_end(s, i) <= s.len(),
        forall|k: int| i <= k < line_end(s, i) ==> #[trigger] s[k] != '\n',
        line_end(s, i) < s.len() ==> s[line_end(s, i)] == '\n',
    decreases s.len() - i,
{
    if i < s.len() && s[i] != '\n' {
        lemma_line_end_bounds(s, i + 1);
    }
}

/// What follows `trim_end` is whitespace, and what stands just before it is
/// not.
pub proof fn lemma_trim_end_bounds(s: Seq<char>)
    ensures
        0 <= trim_end(s) <= s.len(),
        forall|k: int| trim_end(s) <= k < s.len() ==> is_whitespace(#[trigger] s[k]),
        trim_end(s) > 0 ==> !is_whitespace(s[trim_end(s) - 1]),
    decreases s.len(),
{
    if s.len() > 0 && is_whitespace(s.last()) {
        let front = s.drop_last();
        lemma_trim_end_bounds(front);
        assert forall|k: int| trim_end(s) <= k < s.len() implies is_whitespace(
            #[trigger] s[k],
        ) by {
            if k < front.len() {
                assert(front[k] == s[k]);
            }
        }
    }
}

/// A word of a suffix of `s` is the word of `s` at the corresponding
/// position.
pub proof fn lemma_word_end_skip(s: Seq<char>, k: int, i: int)
    requires
        0 <= k <= s.len(),
        0 <= i <= s.len() - k,
    ensures
        word_end(s.skip(k), i) == word_end(s, k + i) - k,
    decreases s.len() - k - i,
{
    if i < s.len() - k && !is_whitespace(s[k + i]) {
        lemma_word_end_skip(s, k, i + 1);
    }
}

/// A gap of a suffix of `s` is the gap of `s` at the corresponding position.
pub proof fn lemma_gap_end_skip(s: Seq<char>, k: int, i: int)
    requires
        0 <= k <= s.len(),
        0 <= i <= s.len() - k,
    ensures
        gap_end(s.skip(k), i) == gap_end(s, k + i) - k,
    decreases s.len() - k - i,
{
    if i < s.len() - k && is_whitespace(s[k + i]) {
        lemma_gap_end_skip(s, k, i + 1);
    }
}

/// A line of a suffix of `s` is the line of `s` at the corresponding
/// position.
pub proof fn lemma_line_end_skip(s: Seq<char>, k: int, i: int)
    requires
        0 <= k <= s.len(),
        0 <= i <= s.len() - k,
    ensures
        line_end(s.skip(k), i) == line_end(s, k + i) - k,
    decreases s.len() - k - i,
{
    if i < s.len() - k && s[k + i] != '\n' {
        lemma_line_end_skip(s, k, i + 1);
    }
}

/// A text that neither begins nor ends with whitespace is its own trimmed
/// form.
pub proof fn lemma_trimmed_unchanged(s: Seq<char>)
    requires
        s.len() > 0 ==> !is_whitespace(s[0]) && !is_whitespace(s.last()),
    ensures
        trimmed(s) == s,
{
    if s.len() > 0 {
        assert(gap_end(s, 0) == 0);
        assert(trim_end(s) == s.len());
        assert(s.subrange(0, s.len() as int) == s);
    } else {
        assert(gap_end(s, 0) == 0);
        assert(trim_end(s) == 0);
    }
}

/// Trimming a trimmed text changes nothing.
pub proof fn lemma_trimmed_twice(s: Seq<char>)
    ensures
        trimmed(trimmed(s)) == trimmed(s),
{
    let start = gap_end(s, 0);
    let end = trim_end(s);
    lemma_gap_end_bounds(s, 0);
    lemma_trim_end_bounds(s);
    let t = trimmed(s);
    if start < end {
        assert(t[0] == s[start]);
        assert(t.last() == s[end - 1]);
        assert(gap_end(t, 0) == 0);
        assert(trim_end(t) == t.len());
        assert(t.subrange(0, t.len() as int) == t);
    } else {
        assert(gap_end(t, 0) == 0);
        assert(trim_end(t) == 0);
    }
}

/// The characters of `s`, in order.
pub(crate) fn chars_of(s: &str) -> (v: Vec<char>)
    ensures
        v@ == s@,
{
    let mut v: Vec<char> = Vec::new();
    let source = s.chars();
    for c in it: source
        invariant
            v@ == it.seq().take(it.index() as int),
            it.seq() == s@,
    {
        v.push(c);
    }
    v
}

/// Finds the end of the word that starts at `start`.
pub(crate) fn scan_word(s: &Vec<char>, start: usize) -> (end: usize)
    requires
        start <= s.len(),
    ensures
        end == word_end(s@, start as int),
        start <= end <= s.len(),
{
    let mut i: usize = start;
    while i < s.len() && !char_is_whitespace(s[i])
        invariant
            start <= i <= s.len(),
            word_end(s@, start as int) == word_end(s@, i as int),
        decreases s.len() - i,
    {
        i += 1;
    }
    i
}

/// Finds the end of the gap that starts at `start`.
pub(crate) fn scan_gap(s: &Vec<char>, start: usize) -> (end: usize)
    requires
        start <= s.len(),
    ensures
        end == gap_end(s@, start as int),
        start <= end <= s.len(),
{
    let mut i: usize = start;
    while i < s.len() && char_is_whitespace(s[i])
        invariant
            start <= i <= s.len(),
            gap_end(s@, start as int) == gap_end(s@, i as int),
        decreases s.len() - i,
    {
        i += 1;
    }
    i
}

/// Finds the end of the run of digits that starts at `start`.
pub(crate) fn scan_digits(s: &Vec<char>, start: usize) -> (end: usize)
    requires
        start <= s.len(),
    ensures
        end == digits_end(s@, start as int),
        start <= end <= s.len(),
{
    let mut i: usize = start;
    while i < s.len() && char_is_digit(s[i])
        invariant
            start <= i <= s.len(),
            digits_end(s@, start as int) == digits_end(s@, i as int),
        decreases s.len() - i,
    {
        i += 1;
    }
    i
}

/// Finds the end of the line that starts at `start`.
pub(crate) fn scan_line(s: &Vec<char>, start: usize) -> (end: usize)
    requires
        start <= s.len(),
    ensures
        end == line_end(s@, start as int),
        start <= end <= s.len(),
{
    let mut i: usize = start;
    while i < s.len() && s[i] != '\n'
        invariant
            start <= i <= s.len(),
            line_end(s@, start as int) == line_end(s@, i as int),
        decreases s.len() - i,
    {
        i += 1;
    }
    i
}

/// Finds the start of the trailing whitespace.
pub(crate) fn scan_trim_end(s: &Vec<char>) -> (end: usize)
    ensures
        end == trim_end(s@),
        end <= s.len(),
{
    let mut i: usize = s.len();
    assert(s@.take(i as int) == s@);
    while i > 0 && char_is_whitespace(s[i - 1])
        invariant
            i <= s.len(),
            trim_end(s@) == trim_end(s@.take(i as int)),
        decreases i,
    {
        assert(s@.take(i as int).drop_last() == s@.take(i - 1));
        i -= 1;
    }
    i
}

/// Bounds of `trimmed(s)` inside `s`: the result is `s[start..end]`.
pub(crate) fn trim_bounds(s: &Vec<char>) -> (bounds: (usize, usize))
    ensures
        bounds.0 <= bounds.1 <= s.len(),
        trimmed(s@) == s@.subrange(bounds.0 as int, bounds.1 as int),
{
    let start = scan_gap(s, 0);
    let end = scan_trim_end(s);
    if start < end {
        (start, end)
    } else {
        (0, 0)
    }
}

/// A copy of the characters of `s` from `start` to `end`.
pub(crate) fn copy_range(s: &Vec<char>, start: usize, end: usize) -> (v: Vec<char>)
    requires
        start <= end <= s.len(),
    ensures
        v@ == s@.subrange(start as int, end as int),
{
    let mut v: Vec<char> = Vec::new();
    let mut i: usize = start;
    while i < end
        invariant
            start <= i <= end <= s.len(),
            v@ == s@.subrange(start as int, i as int),
        decreases end - i,
    {
        v.push(s[i]);
        i += 1;
    }
    v
}

/// `s` without its leading and trailing whitespace.
pub fn trim(s: &str) -> (r: String)
    ensures
        r@ == trimmed(s@),
{
    let chars = chars_of(s);
    let bounds = trim_bounds(&chars);
    String::from_str(s.substring_char(bounds.0, bounds.1))
}

/// Whether the characters of `s` from `start` to `end` spell `word`.
pub(crate) fn range_equals(s: &Vec<char>, start: usize, end: usize, word: &str) -> (r: bool)
    requires
        start <= end <= s.len(),
    ensures
        r == (s@.subrange(start as int, end as int) == word@),
{
    let w = chars_of(word);
    if w.len() != end - start {
        return false;
    }
    let mut i: usize = 0;
    while i < w.len()
        invariant
            start <= end <= s.len(),
            w@ == word@,
            w.len() == end - start,
            i <= w.len(),
            forall|k: int| 0 <= k < i ==> s@[start + k] == w@[k],
        decreases w.len() - i,
    {
        if s[start + i] != w[i] {
            assert(s@.subrange(start as int, end as int)[i as int] == s@[start + i]);
            return false;
        }
        i += 1;
    }
    assert(s@.subrange(start as int, end as int) =~= w@);
    true
}

} // verus!
