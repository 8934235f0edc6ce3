//! The device-list parser: from the display tool's listing to the ordered
//! names of the connected outputs.

use vstd::prelude::*;
use crate::text::{
    char_is_whitespace, chars_of, copy_range, gap_end, is_whitespace, lemma_gap_end_bounds,
    lemma_gap_end_skip, lemma_line_end_bounds, lemma_line_end_skip, lemma_word_end_bounds,
    lemma_word_end_skip, line_end, range_equals, scan_gap, scan_line, scan_word, texts_of,
    word_end,
};

verus! {

/// The lines of `s`: the pieces between its line feeds. A text without a line
/// feed is one line, and a text that ends in a line feed has an empty last
/// line.
pub open spec fn text_lines(s: Seq<char>) -> Seq<Seq<char>>
    decreases s.len(),
{
    let end = line_end(s, 0);
    if 0 <= end < s.len() {
        seq![s.take(end)] + text_lines(s.skip(end + 1))
    } else {
        seq![s]
    }
}

/// The whitespace-delimited fields of `line`, in order: its maximal runs of
/// characters that are not whitespace.
pub open spec fn fields(line: Seq<char>) -> Seq<Seq<char>>
    decreases line.len(),
{
    let start = gap_end(line, 0);
    let end = word_end(line, start);
    if 0 <= start < end <= line.len() {
        seq![line.subrange(start, end)] + fields(line.skip(end))
    } else {
        Seq::empty()
    }
}

/// A line that reports a connected output: it does not begin with whitespace
/// and its second field is the word `connected`.
pub open spec fn is_device_line(line: Seq<char>) -> bool {
    &&& line.len() > 0
    &&& !is_whitespace(line[0])
    &&& fields(line).len() >= 2
    &&& fields(line)[1] == "connected"@
}

/// The name on a device line: what stands before its first whitespace
/// character.
pub open spec fn device_name(line: Seq<char>) -> Seq<char> {
    line.take(word_end(line, 0))
}

/// The names of the connected outputs among `lines`, in the order of the lines.
pub open spec fn devices_among(lines: Seq<Seq<char>>) -> Seq<Seq<char>> {
    lines.filter(|line: Seq<char>| is_device_line(line)).map_values(
        |line: Seq<char>| device_name(line),
    )
}

/// The names of the connected outputs that the listing `output` reports.
pub open spec fn device_names(output: Seq<char>) -> Seq<Seq<char>> {
    devices_among(text_lines(output))
}

/// One more line adds its name where it reports a connected output, and
/// nothing where it does not.
pub proof fn lemma_devices_among_push(lines: Seq<Seq<char>>, line: Seq<char>)
    ensures
        devices_among(lines.push(line)) == (if is_device_line(line) {
            devices_among(lines).push(device_name(line))
        } else {
            devices_among(lines)
        }),
{
    let keep = |line: Seq<char>| is_device_line(line);
    let name = |line: Seq<char>| device_name(line);
    lines.lemma_filter_push(line, keep);
    if is_device_line(line) {
        lines.filter(keep).lemma_push_map_commute(name, line);
    }
}

/// On a line that does not begin with whitespace, the first field is the
/// device name, and the second field, where there is one, is the word that
/// follows the first run of whitespace.
pub proof fn lemma_leading_fields(line: Seq<char>)
    requires
        line.len() > 0,
        !is_whitespace(line[0]),
    ensures
        ({
            let a = word_end(line, 0);
            let b = gap_end(line, a);
            let c = word_end(line, b);
            &&& 0 < a <= b <= c <= line.len()
            &&& fields(line).len() >= 1
            &&& fields(line)[0] == device_name(line)
            &&& b < line.len() ==> fields(line).len() >= 2 && fields(line)[1] == line.subrange(
                b,
                c,
            )
            &&& b >= line.len() ==> fields(line).len() == 1
        }),
{
    let a = word_end(line, 0);
    let b = gap_end(line, a);
    let c = word_end(line, b);
    lemma_word_end_bounds(line, 0);
    lemma_gap_end_bounds(line, a);
    lemma_word_end_bounds(line, b);
    lemma_word_end_bounds(line, 1);
    assert(gap_end(line, 0) == 0);
    assert(a == word_end(line, 1));
    let rest = line.skip(a);
    let tail = fields(rest);
    assert(line.subrange(0, a) == line.take(a));
    assert(fields(line) == seq![line.take(a)] + tail);
    lemma_gap_end_skip(line, a, 0);
    lemma_gap_end_bounds(rest, 0);
    assert(gap_end(rest, 0) == b - a);
    if b < line.len() {
        lemma_word_end_skip(line, a, b - a);
        lemma_word_end_bounds(line, b + 1);
        assert(c == word_end(line, b + 1));
        assert(rest.subrange(b - a, c - a) == line.subrange(b, c));
        assert(tail == seq![line.subrange(b, c)] + fields(rest.skip(c - a)));
    } else {
        assert(tail == Seq::<Seq<char>>::empty());
    }
}

/// Every name that the parser reports is a non-empty token without
/// whitespace.
pub proof fn lemma_device_name_is_token(line: Seq<char>)
    requires
        is_device_line(line),
    ensures
        device_name(line).len() > 0,
        forall|k: int| 0 <= k < device_name(line).len() ==> !is_whitespace(device_name(line)[k]),
{
    lemma_word_end_bounds(line, 0);
}

/// A line that begins with whitespace reports no device.
pub proof fn lemma_indented_line_excluded(line: Seq<char>)
    requires
        line.len() > 0,
        is_whitespace(line[0]),
    ensures
        !is_device_line(line),
        devices_among(seq![line]) == Seq::<Seq<char>>::empty(),
{
    lemma_devices_among_push(Seq::empty(), line);
    assert(Seq::<Seq<char>>::empty().push(line) == seq![line]);
    lemma_devices_among_empty();
}

/// No lines, no devices.
pub proof fn lemma_devices_among_empty()
    ensures
        devices_among(Seq::empty()) == Seq::<Seq<char>>::empty(),
{
    reveal(Seq::filter);
}

/// The devices of two runs of lines, one after the other, are the devices of
/// the first run followed by those of the second: each line is judged by
/// itself, and the order of the lines is kept.
pub proof fn lemma_devices_among_concat(first: Seq<Seq<char>>, second: Seq<Seq<char>>)
    ensures
        devices_among(first + second) == devices_among(first) + devices_among(second),
    decreases second.len(),
{
    if second.len() == 0 {
        lemma_devices_among_empty();
        assert(first + second == first);
    } else {
        let front = second.drop_last();
        let line = second.last();
        lemma_devices_among_concat(first, front);
        assert(first + second == (first + front).push(line));
        assert(second == front.push(line));
        lemma_devices_among_push(first + front, line);
        lemma_devices_among_push(front, line);
    }
}

/// An empty listing reports no device.
pub proof fn lemma_empty_output_has_no_devices()
    ensures
        device_names(Seq::empty()) == Seq::<Seq<char>>::empty(),
{
    let line = Seq::<char>::empty();
    assert(text_lines(Seq::empty()) == seq![line]);
    lemma_devices_among_push(Seq::empty(), line);
    assert(Seq::<Seq<char>>::empty().push(line) == seq![line]);
    lemma_devices_among_empty();
}

/// A text without a line feed.
pub open spec fn is_single_line(line: Seq<char>) -> bool {
    forall|k: int| 0 <= k < line.len() ==> #[trigger] line[k] != '\n'
}

/// The text that holds `lines`, one after the other, with a line feed
/// between each two.
pub open spec fn join_lines(lines: Seq<Seq<char>>) -> Seq<char>
    decreases lines.len(),
{
    if lines.len() == 0 {
        Seq::empty()
    } else if lines.len() == 1 {
        lines[0]
    } else {
        lines[0] + seq!['\n'] + join_lines(lines.skip(1))
    }
}

/// A text put together from lines falls apart into the same lines.
pub proof fn lemma_lines_of_joined(lines: Seq<Seq<char>>)
    requires
        lines.len() >= 1,
        forall|i: int| 0 <= i < lines.len() ==> is_single_line(#[trigger] lines[i]),
    ensures
        text_lines(join_lines(lines)) == lines,
    decreases lines.len(),
{
    let text = join_lines(lines);
    let first = lines[0];
    assert(is_single_line(first));
    lemma_line_end_bounds(text, 0);
    let end = line_end(text, 0);
    if lines.len() == 1 {
        assert(end == text.len());
        assert(text_lines(text) == seq![text]);
        assert(seq![text] == lines);
    } else {
        let rest = lines.skip(1);
        let tail = join_lines(rest);
        assert(text == first + seq!['\n'] + tail);
        assert(text[first.len() as int] == '\n');
        if end < first.len() {
            assert(text[end] == first[end]);
        }
        assert(end == first.len());
        assert(text.take(end) == first);
        assert(text.skip(end + 1) == tail);
        assert forall|i: int| 0 <= i < rest.len() implies is_single_line(#[trigger] rest[i]) by {
            assert(rest[i] == lines[i + 1]);
        }
        lemma_lines_of_joined(rest);
        assert(seq![first] + rest == lines);
    }
}

/// Whatever lines a listing is made of, the parser reports the names on
/// those of them that report a connected output, in their order, and
/// nothing else.
pub proof fn lemma_devices_of_joined(lines: Seq<Seq<char>>)
    requires
        lines.len() >= 1,
        forall|i: int| 0 <= i < lines.len() ==> is_single_line(#[trigger] lines[i]),
    ensures
        device_names(join_lines(lines)) == devices_among(lines),
{
    lemma_lines_of_joined(lines);
}

/// Two readings of one listing give the same names in the same order.
pub proof fn lemma_same_listing_same_devices(
    output: Seq<char>,
    first: Seq<String>,
    second: Seq<String>,
)
    requires
        texts_of(first) == device_names(output),
        texts_of(second) == device_names(output),
    ensures
        first.len() == second.len(),
        forall|i: int| 0 <= i < first.len() ==> first[i]@ == second[i]@,
{
    assert(texts_of(first).len() == first.len());
    assert(texts_of(second).len() == second.len());
    assert forall|i: int| 0 <= i < first.len() implies first[i]@ == second[i]@ by {
        assert(texts_of(first)[i] == first[i]@);
        assert(texts_of(second)[i] == second[i]@);
    }
}

/// Whether `line` reports a connected output, and if so, how many characters
/// its name has.
pub fn device_name_length(line: &Vec<char>) -> (r: Option<usize>)
    ensures
        r is Some <==> is_device_line(line@),
        r matches Some(n) ==> n == word_end(line@, 0) && 0 < n <= line.len(),
{
    if line.len() == 0 || char_is_whitespace(line[0]) {
        return None;
    }
    proof {
        lemma_leading_fields(line@);
    }
    let name_end = scan_word(line, 0);
    let second_start = scan_gap(line, name_end);
    if second_start >= line.len() {
        return None;
    }
    let second_end = scan_word(line, second_start);
    if range_equals(line, second_start, second_end, "connected") {
        Some(name_end)
    } else {
        None
    }
}

/// Reads the display tool's listing and returns the names of the connected
/// outputs, in the order in which the listing gives them.
pub fn parse_devices(output: &str) -> (devices: Vec<String>)
    ensures
        texts_of(devices@) == device_names(output@),
{
    let chars = chars_of(output);
    let mut devices: Vec<String> = Vec::new();
    let ghost mut done: Seq<Seq<char>> = Seq::empty();
    let mut start: usize = 0;
    let mut finished = false;
    proof {
        lemma_devices_among_empty();
        assert(output@.skip(0) == output@);
        assert(done + text_lines(output@) == text_lines(output@));
    }
    while !finished
        invariant
            chars@ == output@,
            start <= chars.len(),
            texts_of(devices@) == devices_among(done),
            finished ==> text_lines(output@) == done,
            !finished ==> text_lines(output@) == done + text_lines(output@.skip(start as int)),
        decreases chars.len() - start + (if finished { 0int } else { 1int }),
    {
        let end = scan_line(&chars, start);
        let line = copy_range(&chars, start, end);
        let ghost rest = output@.skip(start as int);
        proof {
            lemma_line_end_skip(output@, start as int, 0);
            lemma_line_end_bounds(output@, start as int);
            assert(rest.take(end - start) == line@);
            lemma_devices_among_push(done, line@);
        }
        match device_name_length(&line) {
            Some(n) => {
                let name = String::from_str(output.substring_char(start, start + n));
                proof {
                    assert(name@ == device_name(line@));
                    devices@.lemma_push_map_commute(|text: String| text@, name);
                }
                devices.push(name);
            },
            None => {},
        }
        if end < chars.len() {
            proof {
                assert(rest.skip(end - start + 1) == output@.skip(end + 1));
                assert(done + (seq![line@] + text_lines(output@.skip(end + 1))) == done.push(
                    line@,
                ) + text_lines(output@.skip(end + 1)));
                done = done.push(line@);
            }
            start = end + 1;
        } else {
            proof {
                assert(rest == line@);
                assert(done + seq![line@] == done.push(line@));
                done = done.push(line@);
            }
            finished = true;
        }
    }
    devices
}

} // verus!
