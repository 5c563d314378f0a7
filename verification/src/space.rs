//! White space, indentation and lines.
//!
//! White space is what Unicode calls `White_Space` (the characters that
//! `char::is_whitespace` accepts), read here in its UTF-8 form.

use vstd::prelude::*;
use vstd::string::StringSliceAdditionalSpecFns;
use vstd::utf8::{
    is_char_boundary, length_of_first_scalar, pop_first_scalar, valid_first_scalar, valid_utf8,
};

use crate::text::{
    boundary, lemma_boundary, lemma_cut_is_valid, lemma_str_is_valid, skip, take,
};

verus! {

/// One of U+0009 to U+000D, or U+0020.
pub open spec fn narrow_space(byte: u8) -> bool {
    0x09 <= byte <= 0x0d || byte == 0x20
}

/// U+0085 or U+00A0, in two bytes.
pub open spec fn middle_space(first: u8, second: u8) -> bool {
    first == 0xc2 && (second == 0x85 || second == 0xa0)
}

/// U+1680, U+2000 to U+200A, U+2028, U+2029, U+202F, U+205F or U+3000, in
/// three bytes.
pub open spec fn wide_space(first: u8, second: u8, third: u8) -> bool {
    ||| first == 0xe1 && second == 0x9a && third == 0x80
    ||| first == 0xe2 && second == 0x80 && (0x80 <= third <= 0x8a || third == 0xa8 || third
        == 0xa9 || third == 0xaf)
    ||| first == 0xe2 && second == 0x81 && third == 0x9f
    ||| first == 0xe3 && second == 0x80 && third == 0x80
}

/// The width in bytes of the white space character that begins at `at`;
/// 0 where none does.
pub open spec fn space_width(text: Seq<u8>, at: int) -> int {
    if at < 0 || at >= text.len() {
        0
    } else if narrow_space(text[at]) {
        1
    } else if at + 1 < text.len() && middle_space(text[at], text[at + 1]) {
        2
    } else if at + 2 < text.len() && wide_space(text[at], text[at + 1], text[at + 2]) {
        3
    } else {
        0
    }
}

/// The width in bytes of the white space character that ends at `end`;
/// 0 where none does.
pub open spec fn space_width_before(text: Seq<u8>, end: int) -> int {
    if end < 1 || end > text.len() {
        0
    } else if narrow_space(text[end - 1]) {
        1
    } else if end >= 2 && middle_space(text[end - 2], text[end - 1]) {
        2
    } else if end >= 3 && wide_space(text[end - 3], text[end - 2], text[end - 1]) {
        3
    } else {
        0
    }
}

/// Where the run of white space that begins at `from` ends.
pub open spec fn space_end(text: Seq<u8>, from: int) -> int
    decreases text.len() - from,
{
    if space_width(text, from) == 0 {
        from
    } else {
        space_end(text, from + space_width(text, from))
    }
}

/// Where the run of white space that ends at `end` begins.
pub open spec fn space_start(text: Seq<u8>, end: int) -> int
    decreases end,
{
    if space_width_before(text, end) == 0 {
        end
    } else {
        space_start(text, end - space_width_before(text, end))
    }
}

/// `text` without the white space it begins with.
pub open spec fn trimmed_start(text: Seq<u8>) -> Seq<u8> {
    text.skip(space_end(text, 0))
}

/// `text` without the white space it ends with.
pub open spec fn trimmed_end(text: Seq<u8>) -> Seq<u8> {
    text.take(space_start(text, text.len() as int))
}

/// `text` without the white space at either end.
pub open spec fn trimmed(text: Seq<u8>) -> Seq<u8> {
    trimmed_end(trimmed_start(text))
}

/// A run of white space stays inside the text.
pub proof fn lemma_space_end_fits(text: Seq<u8>, from: int)
    requires
        0 <= from <= text.len(),
    ensures
        from <= space_end(text, from) <= text.len(),
    decreases text.len() - from,
{
    if space_width(text, from) != 0 {
        lemma_space_end_fits(text, from + space_width(text, from));
    }
}

/// A run of white space stays inside the text.
pub proof fn lemma_space_start_fits(text: Seq<u8>, end: int)
    requires
        0 <= end <= text.len(),
    ensures
        0 <= space_start(text, end) <= end,
    decreases end,
{
    if space_width_before(text, end) != 0 {
        lemma_space_start_fits(text, end - space_width_before(text, end));
    }
}

/// Trimming never makes a text longer, and makes one that ends in white
/// space shorter.
pub proof fn lemma_trimmed_lengths(text: Seq<u8>)
    ensures
        trimmed_start(text).len() <= text.len(),
        trimmed_end(text).len() <= text.len(),
        trimmed(text).len() <= text.len(),
        space_width_before(text, text.len() as int) > 0 ==> trimmed(text).len() < text.len(),
{
    lemma_space_end_fits(text, 0);
    lemma_space_start_fits(text, text.len() as int);
    let inner = trimmed_start(text);
    lemma_space_start_fits(inner, inner.len() as int);
    if space_width_before(text, text.len() as int) > 0 && inner.len() == text.len() {
        assert(inner =~= text);
        let width = space_width_before(text, text.len() as int);
        lemma_space_start_fits(text, text.len() - width);
    }
}

/// After the character that begins at a boundary comes a boundary.
pub proof fn lemma_next_boundary(text: Seq<u8>, at: int)
    requires
        valid_utf8(text),
        boundary(text, at),
        at < text.len(),
    ensures
        boundary(text, at + length_of_first_scalar(text.skip(at))),
        1 <= length_of_first_scalar(text.skip(at)) <= text.len() - at,
{
    lemma_cut_is_valid(text, at, text.len() as int);
    let tail = text.skip(at);
    assert(tail =~= text.subrange(at, text.len() as int));
    let step = length_of_first_scalar(tail);
    assert(valid_first_scalar(tail));
    assert(is_char_boundary(pop_first_scalar(tail), 0));
    assert(is_char_boundary(tail, step));
    lemma_boundary(tail, step);
    if at + step < text.len() {
        assert(tail[step] == text[at + step]);
    }
}

/// An ASCII byte is a character of its own, with a boundary on either side.
pub proof fn lemma_ascii_boundaries(text: Seq<u8>, at: int)
    requires
        valid_utf8(text),
        0 <= at < text.len(),
        text[at] < 0x80,
    ensures
        boundary(text, at),
        boundary(text, at + 1),
{
    lemma_next_boundary(text, at);
    assert(text.skip(at)[0] == text[at]);
}

/// A white space character that begins at a boundary ends at one.
pub proof fn lemma_space_on_boundary(text: Seq<u8>, at: int)
    requires
        valid_utf8(text),
        boundary(text, at),
    ensures
        boundary(text, at + space_width(text, at)),
{
    if space_width(text, at) > 0 {
        lemma_next_boundary(text, at);
        let tail = text.skip(at);
        assert(tail[0] == text[at]);
    }
}

/// A run of white space that begins at a boundary ends at one.
pub proof fn lemma_space_end_on_boundary(text: Seq<u8>, from: int)
    requires
        valid_utf8(text),
        boundary(text, from),
    ensures
        boundary(text, space_end(text, from)),
    decreases text.len() - from,
{
    if space_width(text, from) != 0 {
        lemma_space_on_boundary(text, from);
        lemma_space_end_on_boundary(text, from + space_width(text, from));
    }
}

/// A run of white space that ends at a boundary begins at one.
pub proof fn lemma_space_start_on_boundary(text: Seq<u8>, end: int)
    requires
        boundary(text, end),
    ensures
        boundary(text, space_start(text, end)),
    decreases end,
{
    if space_width_before(text, end) != 0 {
        lemma_space_start_on_boundary(text, end - space_width_before(text, end));
    }
}

/// The width of the white space character that begins at `at`, 0 where none
/// does.
fn width_at(bytes: &[u8], at: usize) -> (width: usize)
    ensures
        width == space_width(bytes@, at as int),
        at + width <= bytes.len() || width == 0,
{
    let n = bytes.len();
    if at >= n {
        return 0;
    }
    let first = bytes[at];
    if (0x09 <= first && first <= 0x0d) || first == 0x20 {
        return 1;
    }
    if n - at >= 2 {
        let second = bytes[at + 1];
        if first == 0xc2 && (second == 0x85 || second == 0xa0) {
            return 2;
        }
        if n - at >= 3 {
            let third = bytes[at + 2];
            if (first == 0xe1 && second == 0x9a && third == 0x80) || (first == 0xe2 && second
                == 0x80 && ((0x80 <= third && third <= 0x8a) || third == 0xa8 || third == 0xa9
                || third == 0xaf)) || (first == 0xe2 && second == 0x81 && third == 0x9f) || (first
                == 0xe3 && second == 0x80 && third == 0x80) {
                return 3;
            }
        }
    }
    0
}

/// The width of the white space character that ends at `end`, 0 where none
/// does.
fn width_before(bytes: &[u8], end: usize) -> (width: usize)
    ensures
        width == space_width_before(bytes@, end as int),
        width <= end,
{
    if end < 1 || end > bytes.len() {
        return 0;
    }
    let last = bytes[end - 1];
    if (0x09 <= last && last <= 0x0d) || last == 0x20 {
        return 1;
    }
    if end >= 2 {
        let second = bytes[end - 2];
        if second == 0xc2 && (last == 0x85 || last == 0xa0) {
            return 2;
        }
        if end >= 3 {
            let first = bytes[end - 3];
            if (first == 0xe1 && second == 0x9a && last == 0x80) || (first == 0xe2 && second
                == 0x80 && ((0x80 <= last && last <= 0x8a) || last == 0xa8 || last == 0xa9 || last
                == 0xaf)) || (first == 0xe2 && second == 0x81 && last == 0x9f) || (first == 0xe3
                && second == 0x80 && last == 0x80) {
                return 3;
            }
        }
    }
    0
}

/// `text` without the white space it begins with.
pub fn trim_start<'a>(text: &'a str) -> (rest: &'a str)
    ensures
        rest.spec_bytes() == trimmed_start(text.spec_bytes()),
{
    let bytes = text.as_bytes();
    let mut at: usize = 0;
    proof {
        lemma_str_is_valid(text);
    }
    loop
        invariant
            bytes@ == text.spec_bytes(),
            valid_utf8(bytes@),
            at <= bytes.len(),
            boundary(bytes@, at as int),
            space_end(bytes@, 0) == space_end(bytes@, at as int),
        decreases bytes.len() - at,
    {
        let width = width_at(bytes, at);
        if width == 0 {
            return skip(text, at);
        }
        proof {
            lemma_space_on_boundary(bytes@, at as int);
        }
        at = at + width;
    }
}

/// `text` without the white space it ends with.
pub fn trim_end<'a>(text: &'a str) -> (rest: &'a str)
    ensures
        rest.spec_bytes() == trimmed_end(text.spec_bytes()),
{
    let bytes = text.as_bytes();
    let mut end: usize = bytes.len();
    proof {
        lemma_str_is_valid(text);
    }
    loop
        invariant
            bytes@ == text.spec_bytes(),
            end <= bytes.len(),
            boundary(bytes@, end as int),
            space_start(bytes@, bytes.len() as int) == space_start(bytes@, end as int),
        decreases end,
    {
        let width = width_before(bytes, end);
        if width == 0 {
            return take(text, end);
        }
        end = end - width;
    }
}

/// `text` without the white space at either end.
pub fn trim<'a>(text: &'a str) -> (rest: &'a str)
    ensures
        rest.spec_bytes() == trimmed(text.spec_bytes()),
{
    trim_end(trim_start(text))
}

// ------------------------------------------------------------ indentation

/// The indentation that begins at `from`: a space counts 1, a tab 4.
pub open spec fn indent_width(text: Seq<u8>, from: int) -> nat
    decreases text.len() - from,
{
    if from < 0 || from >= text.len() {
        0
    } else if text[from] == 0x20 {
        1 + indent_width(text, from + 1)
    } else if text[from] == 0x09 {
        4 + indent_width(text, from + 1)
    } else {
        0
    }
}

/// `width`, or the largest `usize` where it is larger.
pub open spec fn capped(width: int) -> usize {
    if width > usize::MAX {
        usize::MAX
    } else {
        width as usize
    }
}

/// The indentation that begins at byte `from` of `bytes`, capped.
fn indent_from(bytes: &[u8], from: usize) -> (width: usize)
    ensures
        width == capped(indent_width(bytes@, from as int) as int),
{
    let mut at = from;
    let mut width: usize = 0;
    loop
        invariant
            from <= at,
            indent_width(bytes@, from as int) == width + indent_width(bytes@, at as int),
        decreases bytes.len() - at,
    {
        if at >= bytes.len() {
            return width;
        }
        let step: usize = if bytes[at] == 0x20 {
            1
        } else if bytes[at] == 0x09 {
            4
        } else {
            return width;
        };
        if width > usize::MAX - step {
            return usize::MAX;
        }
        width = width + step;
        at = at + 1;
    }
}

/// The indentation of `text`: the spaces and tabs it begins with, a tab
/// counted as 4 spaces.
pub fn count_indent(text: &str) -> (width: usize)
    ensures
        width == capped(indent_width(text.spec_bytes(), 0) as int),
{
    indent_from(text.as_bytes(), 0)
}

// ------------------------------------------------------------------ lines

/// The offset of the first line feed at or after `from`, or the length of
/// the text.
pub open spec fn line_end(text: Seq<u8>, from: int) -> int
    decreases text.len() - from,
{
    if from < 0 || from >= text.len() {
        text.len() as int
    } else if text[from] == 0x0a {
        from
    } else {
        line_end(text, from + 1)
    }
}

/// Where the line after the one that holds `from` begins, or the length of
/// the text.
pub open spec fn next_line(text: Seq<u8>, from: int) -> int {
    if line_end(text, from) < text.len() {
        line_end(text, from) + 1
    } else {
        text.len() as int
    }
}

/// A line ends inside the text, at or after where it begins, on a line feed
/// or at the end.
pub proof fn lemma_line_end(text: Seq<u8>, from: int)
    requires
        0 <= from <= text.len(),
    ensures
        from <= line_end(text, from) <= text.len(),
        line_end(text, from) < text.len() ==> text[line_end(text, from)] == 0x0a,
        forall|i: int| from <= i < line_end(text, from) ==> text[i] != 0x0a,
        from < text.len() ==> from < next_line(text, from) <= text.len(),
        boundary(text, line_end(text, from)),
    decreases text.len() - from,
{
    if from < text.len() && text[from] != 0x0a {
        lemma_line_end(text, from + 1);
    }
}

/// After a line feed comes a boundary.
pub proof fn lemma_next_line_on_boundary(text: Seq<u8>, from: int)
    requires
        valid_utf8(text),
        0 <= from <= text.len(),
    ensures
        boundary(text, next_line(text, from)),
{
    lemma_line_end(text, from);
    let end = line_end(text, from);
    if end < text.len() {
        lemma_next_boundary(text, end);
        assert(text.skip(end)[0] == text[end]);
    }
}

/// The offset of the first line feed at or after `from`, or the length.
fn find_line_end(bytes: &[u8], from: usize) -> (end: usize)
    requires
        from <= bytes.len(),
    ensures
        end == line_end(bytes@, from as int),
        from <= end <= bytes.len(),
{
    let mut at = from;
    proof {
        lemma_line_end(bytes@, from as int);
    }
    while at < bytes.len() && bytes[at] != 0x0a
        invariant
            from <= at <= bytes.len(),
            line_end(bytes@, from as int) == line_end(bytes@, at as int),
        decreases bytes.len() - at,
    {
        at = at + 1;
    }
    at
}

/// Where the first line begins, at or after `at`, that is indented by less
/// than `indent`; the length of the text where none is. The line at `at`
/// itself is only looked at where `test` says so.
pub open spec fn scope_end(text: Seq<u8>, indent: int, at: int, test: bool) -> int
    decreases text.len() - at,
{
    if at < 0 || at >= text.len() {
        text.len() as int
    } else if test && indent_width(text, at) < indent {
        at
    } else {
        proof {
            lemma_line_end(text, at);
        }
        scope_end(text, indent, next_line(text, at), true)
    }
}

/// A scope ends inside the text, between characters.
pub proof fn lemma_scope_end(text: Seq<u8>, indent: int, at: int, test: bool)
    requires
        valid_utf8(text),
        0 <= at <= text.len(),
        boundary(text, at),
    ensures
        at <= scope_end(text, indent, at, test) <= text.len(),
        boundary(text, scope_end(text, indent, at, test)),
        at < text.len() && !test ==> at < scope_end(text, indent, at, test),
    decreases text.len() - at,
{
    if at < text.len() && !(test && indent_width(text, at) < indent) {
        lemma_line_end(text, at);
        lemma_next_line_on_boundary(text, at);
        lemma_scope_end(text, indent, next_line(text, at), true);
    }
}

/// The two parts that `split_scope` cuts a text into.
pub open spec fn scope_parts(text: Seq<u8>, indent: int, test_first_line: bool) -> (
    Seq<u8>,
    Seq<u8>,
) {
    let end = scope_end(text, indent, 0, test_first_line);
    (text.take(end), text.skip(end))
}

/// Cuts `text` before its first line that is indented by less than `indent`:
/// the lines before it, and the rest. The first line stays in the first part
/// whatever its indentation, unless `test_first_line` is set.
pub fn split_scope<'a>(text: &'a str, indent: usize, test_first_line: bool) -> (parts: (
    &'a str,
    &'a str,
))
    ensures
        (parts.0.spec_bytes(), parts.1.spec_bytes()) == scope_parts(
            text.spec_bytes(),
            indent as int,
            test_first_line,
        ),
{
    let bytes = text.as_bytes();
    let mut at: usize = 0;
    let mut test = test_first_line;
    proof {
        lemma_str_is_valid(text);
    }
    loop
        invariant
            bytes@ == text.spec_bytes(),
            valid_utf8(bytes@),
            at <= bytes.len(),
            boundary(bytes@, at as int),
            scope_end(bytes@, indent as int, 0, test_first_line) == scope_end(
                bytes@,
                indent as int,
                at as int,
                test,
            ),
        decreases bytes.len() - at,
    {
        if at >= bytes.len() || (test && indent_from(bytes, at) < indent) {
            return (take(text, at), skip(text, at));
        }
        proof {
            lemma_line_end(bytes@, at as int);
            lemma_next_line_on_boundary(bytes@, at as int);
        }
        let end = find_line_end(bytes, at);
        at = if end < bytes.len() {
            end + 1
        } else {
            end
        };
        test = true;
    }
}

} // verus!
