//! Inline text: links, line breaks, code spans, formulas and emphasis.
//!
//! The stages run in that order, each on what the stage before left as plain
//! text, so that a marker inside a code span, say, never opens a style.

use vstd::prelude::*;
use vstd::string::StringSliceAdditionalSpecFns;
use vstd::utf8::is_ascii_chars_encode_utf8;

use crate::error::ParseError;
use crate::math::{katex_markup, render};
use crate::pattern::{italic_pattern, matched, Grammar, Rule};
use crate::text::{
    boundary, find, first_occurrence, lemma_before_holds_no_delimiter, lemma_occurrence_fits,
    lemma_occurrence_on_boundaries, lemma_split_lengths, lemma_split_without,
    lemma_str_is_valid, length, lit, occurs_at, owned, skip, slice, spelled, split,
    split_at_first, take, without,
};
use crate::tree::{
    chunk_view, chunks_view, lemma_chunks_view_add, lemma_chunks_view_push, Chunk, Style,
    TextChunk,
};

verus! {

/// The lengths of the inline delimiters.
pub proof fn lemma_delimiters()
    ensures
        lit("[").len() == 1,
        lit("](").len() == 2,
        lit(")").len() == 1,
        lit("<br>").len() == 4,
        lit("`").len() == 1,
        lit("$").len() == 1,
        lit("$") == seq![0x24u8],
        lit("**").len() == 2,
        lit("__").len() == 2,
        lit("~~").len() == 2,
{
    reveal_strlit("[");
    reveal_strlit("](");
    reveal_strlit(")");
    reveal_strlit("<br>");
    reveal_strlit("`");
    reveal_strlit("$");
    reveal_strlit("**");
    reveal_strlit("__");
    reveal_strlit("~~");
    is_ascii_chars_encode_utf8("["@);
    is_ascii_chars_encode_utf8("]("@);
    is_ascii_chars_encode_utf8(")"@);
    is_ascii_chars_encode_utf8("<br>"@);
    is_ascii_chars_encode_utf8("`"@);
    is_ascii_chars_encode_utf8("$"@);
    is_ascii_chars_encode_utf8("**"@);
    is_ascii_chars_encode_utf8("__"@);
    is_ascii_chars_encode_utf8("~~"@);
    assert(lit("$") =~= seq![0x24u8]);
}

/// Whether a formula stands in `chunk`, at any depth.
pub open spec fn chunk_has_math(chunk: Chunk) -> bool
    decreases chunk,
{
    match chunk {
        Chunk::Math { .. } => true,
        Chunk::Link { title, .. } => chunks_have_math(title),
        Chunk::Styled { chunks, .. } => chunks_have_math(chunks),
        _ => false,
    }
}

/// Whether a formula stands in one of `chunks`, at any depth.
pub open spec fn chunks_have_math(chunks: Seq<Chunk>) -> bool
    decreases chunks,
{
    exists|i: int| 0 <= i < chunks.len() && chunk_has_math(#[trigger] chunks[i])
}

/// A formula stands in a joined list exactly if it stands in one of the two.
pub proof fn lemma_math_in_joined(left: Seq<Chunk>, right: Seq<Chunk>)
    ensures
        chunks_have_math(left + right) <==> chunks_have_math(left) || chunks_have_math(right),
{
    let joined = left + right;
    if chunks_have_math(left) {
        let i = choose|i: int| 0 <= i < left.len() && chunk_has_math(#[trigger] left[i]);
        assert(joined[i] == left[i]);
    }
    if chunks_have_math(right) {
        let i = choose|i: int| 0 <= i < right.len() && chunk_has_math(#[trigger] right[i]);
        assert(joined[left.len() + i] == right[i]);
    }
    if chunks_have_math(joined) {
        let i = choose|i: int| 0 <= i < joined.len() && chunk_has_math(#[trigger] joined[i]);
        if i < left.len() {
            assert(joined[i] == left[i]);
        } else {
            assert(joined[i] == right[i - left.len()]);
        }
    }
}

// ---------------------------------------------------------------- emphasis

impl Style {
    /// The length of the marker that opens and closes the style.
    pub open spec fn width(self) -> int {
        match self {
            Style::Italic => 1,
            _ => 2,
        }
    }
}

/// The offset of the first `*` in `text` that has no `*` beside it.
pub open spec fn lone_star(text: Seq<u8>) -> Option<int> {
    match matched(italic_pattern(), text) {
        Some(spans) => if spans.len() >= 2 && spans[1] is Some && spans[1].unwrap().1
            == spans[1].unwrap().0 + 1 {
            Some(spans[1].unwrap().0 as int)
        } else {
            None
        },
        None => None,
    }
}

/// The offset of the first marker of `style` in `text`.
pub open spec fn marker_at(text: Seq<u8>, style: Style) -> Option<int> {
    match style {
        Style::Bold => first_occurrence(text, lit("**")),
        Style::Underline => first_occurrence(text, lit("__")),
        Style::Strikethrough => first_occurrence(text, lit("~~")),
        Style::Italic => lone_star(text),
    }
}

/// `found`, unless the first marker of `style` stands before it.
pub open spec fn nearer(found: Option<(int, Style)>, text: Seq<u8>, style: Style) -> Option<
    (int, Style),
> {
    match marker_at(text, style) {
        Some(at) => if found is None || at < found.unwrap().0 {
            Some((at, style))
        } else {
            found
        },
        None => found,
    }
}

/// The first marker in `text`, of any style, and where it stands. Of two at
/// one offset, bold comes before underline, strikethrough and italic.
pub open spec fn first_marker(text: Seq<u8>) -> Option<(int, Style)> {
    nearer(
        nearer(nearer(nearer(None, text, Style::Bold), text, Style::Underline), text, Style::Strikethrough),
        text,
        Style::Italic,
    )
}

/// A marker that is found lies inside the text, between characters.
pub proof fn lemma_marker_fits(text: Seq<u8>, style: Style)
    requires
        vstd::utf8::valid_utf8(text),
    ensures
        marker_at(text, style) matches Some(at) ==> {
            &&& 0 <= at
            &&& at + style.width() <= text.len()
            &&& boundary(text, at)
            &&& boundary(text, at + style.width())
        },
{
    lemma_delimiters();
    match style {
        Style::Bold => {
            lemma_occurrence_fits(text, lit("**"));
            if let Some(at) = marker_at(text, style) {
                lemma_str_is_valid("**");
                lemma_occurrence_on_boundaries(text, lit("**"), at);
            }
        },
        Style::Underline => {
            lemma_occurrence_fits(text, lit("__"));
            if let Some(at) = marker_at(text, style) {
                lemma_str_is_valid("__");
                lemma_occurrence_on_boundaries(text, lit("__"), at);
            }
        },
        Style::Strikethrough => {
            lemma_occurrence_fits(text, lit("~~"));
            if let Some(at) = marker_at(text, style) {
                lemma_str_is_valid("~~");
                lemma_occurrence_on_boundaries(text, lit("~~"), at);
            }
        },
        Style::Italic => {
            if let Some(spans) = matched(italic_pattern(), text) {
                if spans.len() >= 2 {
                    assert(spans[1] is Some ==> spans[1].unwrap().1 <= text.len());
                }
            }
        },
    }
}

/// A first marker lies inside the text, between characters.
pub proof fn lemma_first_marker_fits(text: Seq<u8>)
    requires
        vstd::utf8::valid_utf8(text),
    ensures
        first_marker(text) matches Some((at, style)) ==> {
            &&& marker_at(text, style) == Some(at)
            &&& 0 <= at
            &&& at + style.width() <= text.len()
            &&& boundary(text, at)
            &&& boundary(text, at + style.width())
        },
{
    lemma_marker_fits(text, Style::Bold);
    lemma_marker_fits(text, Style::Underline);
    lemma_marker_fits(text, Style::Strikethrough);
    lemma_marker_fits(text, Style::Italic);
}

/// The chunks of `text`, in which markers before `from` stay plain text.
///
/// The first marker at or after `from` opens a style if the same marker
/// follows it: what lies between is chunked again, and so is what follows.
/// A marker that is never closed stays plain text, and the search goes on
/// behind it.
pub open spec fn styled_from(text: Seq<u8>, from: int) -> Seq<Chunk>
    decreases text.len(), text.len() - from,
    via styled_from_decreases
{
    if from < 0 || from > text.len() || !vstd::utf8::valid_utf8(text) || !boundary(text, from) {
        seq![Chunk::Text(spelled(text))]
    } else {
        match first_marker(text.skip(from)) {
            None => seq![Chunk::Text(spelled(text))],
            Some((offset, style)) => {
                let open = from + offset;
                let inside = open + style.width();
                match marker_at(text.skip(inside), style) {
                    Some(length) => {
                        let close = inside + length;
                        seq![Chunk::Text(spelled(text.take(open)))] + seq![
                            Chunk::Styled {
                                style,
                                chunks: styled_from(text.subrange(inside, close), 0),
                            },
                        ] + styled_from(text.skip(close + style.width()), 0)
                    },
                    None => styled_from(text, inside),
                }
            },
        }
    }
}

#[via_fn]
proof fn styled_from_decreases(text: Seq<u8>, from: int) {
    if !(from < 0 || from > text.len() || !vstd::utf8::valid_utf8(text) || !boundary(text, from)) {
        lemma_styled_step(text, from);
    }
}

/// Where the markers of one step of `styled_from` stand.
pub proof fn lemma_styled_step(text: Seq<u8>, from: int)
    requires
        0 <= from <= text.len(),
        vstd::utf8::valid_utf8(text),
        boundary(text, from),
    ensures
        first_marker(text.skip(from)) matches Some((offset, style)) ==> {
            let open = from + offset;
            let inside = open + style.width();
            &&& from <= open
            &&& inside <= text.len()
            &&& boundary(text, open)
            &&& boundary(text, inside)
            &&& vstd::utf8::valid_utf8(text.skip(inside))
            &&& marker_at(text.skip(inside), style) matches Some(length) ==> {
                let close = inside + length;
                &&& inside <= close
                &&& close + style.width() <= text.len()
                &&& boundary(text, close)
                &&& boundary(text, close + style.width())
            }
        },
{
    crate::text::lemma_cut_is_valid(text, from, text.len() as int);
    let rest = text.skip(from);
    assert(rest =~= text.subrange(from, text.len() as int));
    lemma_first_marker_fits(rest);
    if let Some((offset, style)) = first_marker(rest) {
        let open = from + offset;
        let inside = open + style.width();
        if open < text.len() {
            assert(rest[offset] == text[open]);
        }
        if inside < text.len() {
            assert(rest[offset + style.width()] == text[inside]);
        }
        crate::text::lemma_cut_is_valid(text, inside, text.len() as int);
        let tail = text.skip(inside);
        assert(tail =~= text.subrange(inside, text.len() as int));
        lemma_marker_fits(tail, style);
        if let Some(length) = marker_at(tail, style) {
            let close = inside + length;
            if close < text.len() {
                assert(tail[length] == text[close]);
            }
            if close + style.width() < text.len() {
                assert(tail[length + style.width()] == text[close + style.width()]);
            }
        }
    }
}

/// The chunks of a text in which only emphasis is left to find.
pub open spec fn styled(text: Seq<u8>) -> Seq<Chunk> {
    styled_from(text, 0)
}

/// The offset of the first marker of `style` in `text`.
pub fn find_marker(grammar: &Grammar, text: &str, style: Style) -> (found: Option<usize>)
    ensures
        match found {
            Some(at) => marker_at(text.spec_bytes(), style) == Some(at as int),
            None => marker_at(text.spec_bytes(), style).is_none(),
        },
{
    match style {
        Style::Bold => find(text, "**"),
        Style::Underline => find(text, "__"),
        Style::Strikethrough => find(text, "~~"),
        Style::Italic => match grammar.find(Rule::Italic, text) {
            Some(spans) => {
                if spans.len() >= 2 {
                    match spans[1] {
                        Some((from, to)) => if to - from == 1 {
                            Some(from)
                        } else {
                            None
                        },
                        None => None,
                    }
                } else {
                    None
                }
            },
            None => None,
        },
    }
}

/// `found`, unless the first marker of `style` stands before it.
fn nearer_marker(grammar: &Grammar, found: Option<(usize, Style)>, text: &str, style: Style) -> (best:
    Option<(usize, Style)>)
    ensures
        match best {
            Some((at, kind)) => nearer(
                match found {
                    Some((a, k)) => Some((a as int, k)),
                    None => None,
                },
                text.spec_bytes(),
                style,
            ) == Some((at as int, kind)),
            None => nearer(
                match found {
                    Some((a, k)) => Some((a as int, k)),
                    None => None,
                },
                text.spec_bytes(),
                style,
            ).is_none(),
        },
{
    match find_marker(grammar, text, style) {
        Some(at) => match found {
            Some((other, _)) => if at < other {
                Some((at, style))
            } else {
                found
            },
            None => Some((at, style)),
        },
        None => found,
    }
}

/// The first marker in `text`, of any style, and where it stands.
pub fn find_first_marker(grammar: &Grammar, text: &str) -> (found: Option<(usize, Style)>)
    ensures
        match found {
            Some((at, style)) => first_marker(text.spec_bytes()) == Some((at as int, style)),
            None => first_marker(text.spec_bytes()).is_none(),
        },
{
    let found = nearer_marker(grammar, None, text, Style::Bold);
    let found = nearer_marker(grammar, found, text, Style::Underline);
    let found = nearer_marker(grammar, found, text, Style::Strikethrough);
    nearer_marker(grammar, found, text, Style::Italic)
}

/// The styled chunk that wraps `chunks`.
fn wrap(style: Style, chunks: Vec<TextChunk>) -> (chunk: TextChunk)
    ensures
        chunk_view(chunk) == (Chunk::Styled { style, chunks: chunks_view(chunks@) }),
{
    match style {
        Style::Bold => TextChunk::Bold { chunks },
        Style::Underline => TextChunk::Underline { chunks },
        Style::Strikethrough => TextChunk::Strikethrough { chunks },
        Style::Italic => TextChunk::Italic { chunks },
    }
}

/// One plain text chunk.
fn plain(text: &str) -> (chunks: Vec<TextChunk>)
    ensures
        chunks_view(chunks@) == seq![Chunk::Text(spelled(text.spec_bytes()))],
{
    let mut chunks: Vec<TextChunk> = Vec::new();
    chunks.push(TextChunk::Text(owned(text)));
    assert(chunks_view(chunks@) =~= seq![Chunk::Text(spelled(text.spec_bytes()))]);
    chunks
}

/// The chunks of `text`, in which markers before `from` stay plain text.
fn chunk_style_from(grammar: &Grammar, text: &str, from: usize) -> (chunks: Vec<TextChunk>)
    requires
        boundary(text.spec_bytes(), from as int),
    ensures
        chunks_view(chunks@) == styled_from(text.spec_bytes(), from as int),
    decreases text.spec_bytes().len(), text.spec_bytes().len() - from,
{
    let ghost bytes = text.spec_bytes();
    proof {
        lemma_str_is_valid(text);
        lemma_styled_step(bytes, from as int);
    }
    let end = length(text);
    let rest = skip(text, from);
    match find_first_marker(grammar, rest) {
        None => plain(text),
        Some((offset, style)) => {
            let width: usize = match style {
                Style::Italic => 1,
                _ => 2,
            };
            assert(from + offset + width <= end);
            let open = from + offset;
            let inside = open + width;
            let tail = skip(text, inside);
            match find_marker(grammar, tail, style) {
                Some(span) => {
                    let close = inside + span;
                    let mut chunks = plain(take(text, open));
                    let inner = chunk_style_from(grammar, slice(text, inside, close), 0);
                    let styled_chunk = wrap(style, inner);
                    proof {
                        lemma_chunks_view_push(chunks@, styled_chunk);
                    }
                    chunks.push(styled_chunk);
                    let mut after = chunk_style_from(grammar, skip(text, close + width), 0);
                    proof {
                        lemma_chunks_view_add(chunks@, after@);
                    }
                    chunks.append(&mut after);
                    assert(chunks_view(chunks@) =~= styled_from(bytes, from as int));
                    chunks
                },
                None => chunk_style_from(grammar, text, inside),
            }
        },
    }
}

/// Chunks a text in which only emphasis is left to find: `**bold**`,
/// `__underline__`, `~~strikethrough~~` and `*italic*`.
pub fn chunk_style(grammar: &Grammar, text: &str) -> (chunks: Vec<TextChunk>)
    ensures
        chunks_view(chunks@) == styled(text.spec_bytes()),
        !chunks_have_math(chunks_view(chunks@)),
{
    proof {
        lemma_str_is_valid(text);
        lemma_styled_has_no_math(text.spec_bytes(), 0);
    }
    chunk_style_from(grammar, text, 0)
}

/// Emphasis alone brings no formula.
pub proof fn lemma_styled_has_no_math(text: Seq<u8>, from: int)
    ensures
        !chunks_have_math(styled_from(text, from)),
    decreases text.len(), text.len() - from,
{
    let whole = seq![Chunk::Text(spelled(text))];
    assert(!chunks_have_math(whole)) by {
        assert(forall|i: int| 0 <= i < whole.len() ==> !chunk_has_math(#[trigger] whole[i]));
    }
    if !(from < 0 || from > text.len() || !vstd::utf8::valid_utf8(text) || !boundary(text, from)) {
        lemma_styled_step(text, from);
        if let Some((offset, style)) = first_marker(text.skip(from)) {
            let open = from + offset;
            let inside = open + style.width();
            match marker_at(text.skip(inside), style) {
                Some(length) => {
                    let close = inside + length;
                    let before = seq![Chunk::Text(spelled(text.take(open)))];
                    let inner = styled_from(text.subrange(inside, close), 0);
                    let middle = seq![Chunk::Styled { style, chunks: inner }];
                    let after = styled_from(text.skip(close + style.width()), 0);
                    lemma_styled_has_no_math(text.subrange(inside, close), 0);
                    lemma_styled_has_no_math(text.skip(close + style.width()), 0);
                    assert(!chunks_have_math(before)) by {
                        assert(forall|i: int|
                            0 <= i < before.len() ==> !chunk_has_math(#[trigger] before[i]));
                    }
                    assert(!chunks_have_math(middle)) by {
                        assert(forall|i: int|
                            0 <= i < middle.len() ==> !chunk_has_math(#[trigger] middle[i]));
                    }
                    lemma_math_in_joined(before, middle);
                    lemma_math_in_joined(before + middle, after);
                },
                None => {
                    lemma_styled_has_no_math(text, inside);
                },
            }
        }
    }
}

// ------------------------------------------------- formulas and code spans

/// The text before, inside and after the first pair of `delimiter`s.
pub open spec fn span_parts(text: Seq<u8>, delimiter: Seq<u8>) -> Option<
    (Seq<u8>, Seq<u8>, Seq<u8>),
> {
    match split_at_first(text, delimiter) {
        Some((before, rest)) => match split_at_first(rest, delimiter) {
            Some((inside, after)) => Some((before, inside, after)),
            None => None,
        },
        None => None,
    }
}

/// The three parts of a span do not overlap, and leave room for two
/// delimiters.
pub proof fn lemma_span_lengths(text: Seq<u8>, delimiter: Seq<u8>)
    ensures
        span_parts(text, delimiter) matches Some(parts) ==> parts.0.len() + parts.1.len()
            + parts.2.len() + 2 * delimiter.len() == text.len(),
{
    lemma_split_lengths(text, delimiter);
    if let Some((before, rest)) = split_at_first(text, delimiter) {
        lemma_split_lengths(rest, delimiter);
    }
}

/// The text before, inside and after the first pair of `delimiter`s.
fn split_span<'a>(text: &'a str, delimiter: &str) -> (parts: Option<(&'a str, &'a str, &'a str)>)
    ensures
        match parts {
            Some((before, inside, after)) => span_parts(text.spec_bytes(), delimiter.spec_bytes())
                == Some((before.spec_bytes(), inside.spec_bytes(), after.spec_bytes())),
            None => span_parts(text.spec_bytes(), delimiter.spec_bytes()).is_none(),
        },
{
    match split(text, delimiter) {
        Some((before, rest)) => match split(rest, delimiter) {
            Some((inside, after)) => Some((before, inside, after)),
            None => None,
        },
        None => None,
    }
}

/// The chunks of a text in which formulas and emphasis are left to find.
pub open spec fn with_math(text: Seq<u8>) -> Seq<Chunk>
    decreases text.len(),
{
    match span_parts(text, lit("$")) {
        Some((before, tex, after)) => {
            proof {
                lemma_delimiters();
                lemma_span_lengths(text, lit("$"));
            }
            styled(before) + seq![Chunk::Math { text: katex_markup(spelled(tex), false) }]
                + with_math(after)
        },
        None => styled(text),
    }
}

/// The chunks of a text in which code spans, formulas and emphasis are left
/// to find.
pub open spec fn with_code(text: Seq<u8>) -> Seq<Chunk>
    decreases text.len(),
{
    match span_parts(text, lit("`")) {
        Some((before, code, after)) => {
            proof {
                lemma_delimiters();
                lemma_span_lengths(text, lit("`"));
            }
            with_math(before) + seq![Chunk::Code { text: spelled(code) }] + with_code(after)
        },
        None => with_math(text),
    }
}

/// The chunks of a text in which no link is left to find.
pub open spec fn with_breaks(text: Seq<u8>) -> Seq<Chunk>
    decreases text.len(),
{
    match split_at_first(text, lit("<br>")) {
        Some((before, after)) => {
            proof {
                lemma_delimiters();
                lemma_split_lengths(text, lit("<br>"));
            }
            with_code(before) + seq![Chunk::NewLine] + with_breaks(after)
        },
        None => with_code(text),
    }
}

/// The text before the first link, its title, its address, and the text
/// after it: `before[title](address)after`.
pub open spec fn link_parts(text: Seq<u8>) -> Option<(Seq<u8>, Seq<u8>, Seq<u8>, Seq<u8>)> {
    match split_at_first(text, lit("[")) {
        Some((before, rest)) => match split_at_first(rest, lit("](")) {
            Some((title, rest)) => match split_at_first(rest, lit(")")) {
                Some((address, after)) => Some((before, title, address, after)),
                None => None,
            },
            None => None,
        },
        None => None,
    }
}

/// The four parts of a link do not overlap, and leave room for `[`, `](`
/// and `)`.
pub proof fn lemma_link_lengths(text: Seq<u8>)
    ensures
        link_parts(text) matches Some(parts) ==> parts.0.len() + parts.1.len() + parts.2.len()
            + parts.3.len() + 4 == text.len(),
{
    lemma_delimiters();
    lemma_split_lengths(text, lit("["));
    if let Some((before, rest)) = split_at_first(text, lit("[")) {
        lemma_split_lengths(rest, lit("]("));
        if let Some((title, rest)) = split_at_first(rest, lit("](")) {
            lemma_split_lengths(rest, lit(")"));
        }
    }
}

/// The chunks of a text: every stage is still to run.
pub open spec fn with_links(text: Seq<u8>) -> Seq<Chunk>
    decreases text.len(),
{
    match link_parts(text) {
        Some((before, title, address, after)) => {
            proof {
                lemma_link_lengths(text);
            }
            with_breaks(before) + seq![
                Chunk::Link { title: with_breaks(title), url: spelled(address) },
            ] + with_links(after)
        },
        None => with_breaks(text),
    }
}

/// The chunks that a line or paragraph of text is made of.
pub open spec fn chunked(text: Seq<u8>) -> Seq<Chunk> {
    with_links(text)
}

/// `"foo $bar$ baz"` gives `"foo "`, `"bar"`, `" baz"`.
pub fn split_math<'a>(text: &'a str) -> (parts: Option<(&'a str, &'a str, &'a str)>)
    ensures
        match parts {
            Some((before, tex, after)) => span_parts(text.spec_bytes(), lit("$")) == Some(
                (before.spec_bytes(), tex.spec_bytes(), after.spec_bytes()),
            ),
            None => span_parts(text.spec_bytes(), lit("$")).is_none(),
        },
{
    split_span(text, "$")
}

/// `"foo `bar` baz"` gives `"foo "`, `"bar"`, `" baz"`.
pub fn split_code<'a>(text: &'a str) -> (parts: Option<(&'a str, &'a str, &'a str)>)
    ensures
        match parts {
            Some((before, code, after)) => span_parts(text.spec_bytes(), lit("`")) == Some(
                (before.spec_bytes(), code.spec_bytes(), after.spec_bytes()),
            ),
            None => span_parts(text.spec_bytes(), lit("`")).is_none(),
        },
{
    split_span(text, "`")
}

/// `"foo<br>bar"` gives `"foo"`, `"bar"`.
pub fn split_break<'a>(text: &'a str) -> (parts: Option<(&'a str, &'a str)>)
    ensures
        match parts {
            Some((before, after)) => split_at_first(text.spec_bytes(), lit("<br>")) == Some(
                (before.spec_bytes(), after.spec_bytes()),
            ),
            None => split_at_first(text.spec_bytes(), lit("<br>")).is_none(),
        },
{
    split(text, "<br>")
}

/// `"foo [bar](baz) quux"` gives `"foo "`, `("bar", "baz")`, `" quux"`.
pub fn split_link<'a>(text: &'a str) -> (parts: Option<(&'a str, (&'a str, &'a str), &'a str)>)
    ensures
        match parts {
            Some((before, (title, address), after)) => link_parts(text.spec_bytes()) == Some(
                (before.spec_bytes(), title.spec_bytes(), address.spec_bytes(), after.spec_bytes()),
            ),
            None => link_parts(text.spec_bytes()).is_none(),
        },
{
    match split(text, "[") {
        Some((before, rest)) => match split(rest, "](") {
            Some((title, rest)) => match split(rest, ")") {
                Some((address, after)) => Some((before, (title, address), after)),
                None => None,
            },
            None => None,
        },
        None => None,
    }
}

/// Chunks a text in which formulas (`$...$`) and emphasis are left to find.
/// Fails only where a formula does not render.
pub fn chunk_math(grammar: &Grammar, text: &str) -> (result: Result<Vec<TextChunk>, ParseError>)
    ensures
        match result {
            Ok(chunks) => chunks_view(chunks@) == with_math(text.spec_bytes()),
            Err(error) => error == ParseError::MathRenderFailure && chunks_have_math(
                with_math(text.spec_bytes()),
            ),
        },
{
    let mut chunks: Vec<TextChunk> = Vec::new();
    let mut rest = text;
    assert(chunks_view(chunks@) + with_math(rest.spec_bytes()) =~= with_math(text.spec_bytes()));
    loop
        invariant
            chunks_view(chunks@) + with_math(rest.spec_bytes()) == with_math(text.spec_bytes()),
        decreases rest.spec_bytes().len(),
    {
        proof {
            lemma_delimiters();
            lemma_span_lengths(rest.spec_bytes(), lit("$"));
        }
        match split_math(rest) {
            Some((before, tex, after)) => {
                let ghost done = chunks_view(chunks@);
                let ghost formula = Chunk::Math {
                    text: katex_markup(spelled(tex.spec_bytes()), false),
                };
                let mut head = chunk_style(grammar, before);
                proof {
                    lemma_chunks_view_add(chunks@, head@);
                    vstd::utf8::encode_utf8_decode_utf8(tex@);
                }
                chunks.append(&mut head);
                match render(tex, false) {
                    Ok(markup) => {
                        let chunk = TextChunk::Math { text: markup };
                        proof {
                            lemma_chunks_view_push(chunks@, chunk);
                        }
                        chunks.push(chunk);
                    },
                    Err(error) => {
                        proof {
                            let here = styled(before.spec_bytes()) + seq![formula];
                            assert(chunk_has_math(here[here.len() - 1]));
                            lemma_math_in_joined(here, with_math(after.spec_bytes()));
                            lemma_math_in_joined(done, with_math(rest.spec_bytes()));
                        }
                        return Err(error);
                    },
                }
                assert(chunks_view(chunks@) + with_math(after.spec_bytes()) =~= done + with_math(
                    rest.spec_bytes(),
                ));
                rest = after;
            },
            None => {
                let ghost done = chunks_view(chunks@);
                let mut tail = chunk_style(grammar, rest);
                proof {
                    lemma_chunks_view_add(chunks@, tail@);
                }
                chunks.append(&mut tail);
                return Ok(chunks);
            },
        }
    }
}

/// Chunks a text in which code spans (`` `...` ``), formulas and emphasis are
/// left to find. Fails only where a formula does not render.
pub fn chunk_code(grammar: &Grammar, text: &str) -> (result: Result<Vec<TextChunk>, ParseError>)
    ensures
        match result {
            Ok(chunks) => chunks_view(chunks@) == with_code(text.spec_bytes()),
            Err(error) => error == ParseError::MathRenderFailure && chunks_have_math(
                with_code(text.spec_bytes()),
            ),
        },
{
    let mut chunks: Vec<TextChunk> = Vec::new();
    let mut rest = text;
    assert(chunks_view(chunks@) + with_code(rest.spec_bytes()) =~= with_code(text.spec_bytes()));
    loop
        invariant
            chunks_view(chunks@) + with_code(rest.spec_bytes()) == with_code(text.spec_bytes()),
        decreases rest.spec_bytes().len(),
    {
        proof {
            lemma_delimiters();
            lemma_span_lengths(rest.spec_bytes(), lit("`"));
        }
        let ghost done = chunks_view(chunks@);
        match split_code(rest) {
            Some((before, code, after)) => {
                let ghost span = seq![Chunk::Code { text: spelled(code.spec_bytes()) }];
                match chunk_math(grammar, before) {
                    Ok(mut head) => {
                        proof {
                            lemma_chunks_view_add(chunks@, head@);
                        }
                        chunks.append(&mut head);
                    },
                    Err(error) => {
                        proof {
                            lemma_math_in_joined(with_math(before.spec_bytes()), span);
                            lemma_math_in_joined(
                                with_math(before.spec_bytes()) + span,
                                with_code(after.spec_bytes()),
                            );
                            lemma_math_in_joined(done, with_code(rest.spec_bytes()));
                        }
                        return Err(error);
                    },
                }
                let chunk = TextChunk::Code { text: owned(code) };
                proof {
                    lemma_chunks_view_push(chunks@, chunk);
                }
                chunks.push(chunk);
                assert(chunks_view(chunks@) + with_code(after.spec_bytes()) =~= done + with_code(
                    rest.spec_bytes(),
                ));
                rest = after;
            },
            None => {
                match chunk_math(grammar, rest) {
                    Ok(mut tail) => {
                        proof {
                            lemma_chunks_view_add(chunks@, tail@);
                        }
                        chunks.append(&mut tail);
                        return Ok(chunks);
                    },
                    Err(error) => {
                        proof {
                            lemma_math_in_joined(done, with_code(rest.spec_bytes()));
                        }
                        return Err(error);
                    },
                }
            },
        }
    }
}

/// Chunks a text in which no link is left to find: `<br>` breaks the line.
/// Fails only where a formula does not render.
pub fn chunk_breaks(grammar: &Grammar, text: &str) -> (result: Result<Vec<TextChunk>, ParseError>)
    ensures
        match result {
            Ok(chunks) => chunks_view(chunks@) == with_breaks(text.spec_bytes()),
            Err(error) => error == ParseError::MathRenderFailure && chunks_have_math(
                with_breaks(text.spec_bytes()),
            ),
        },
{
    let mut chunks: Vec<TextChunk> = Vec::new();
    let mut rest = text;
    assert(chunks_view(chunks@) + with_breaks(rest.spec_bytes()) =~= with_breaks(
        text.spec_bytes(),
    ));
    loop
        invariant
            chunks_view(chunks@) + with_breaks(rest.spec_bytes()) == with_breaks(
                text.spec_bytes(),
            ),
        decreases rest.spec_bytes().len(),
    {
        proof {
            lemma_delimiters();
            lemma_split_lengths(rest.spec_bytes(), lit("<br>"));
        }
        let ghost done = chunks_view(chunks@);
        match split_break(rest) {
            Some((before, after)) => {
                let ghost line_break = seq![Chunk::NewLine];
                match chunk_code(grammar, before) {
                    Ok(mut head) => {
                        proof {
                            lemma_chunks_view_add(chunks@, head@);
                        }
                        chunks.append(&mut head);
                    },
                    Err(error) => {
                        proof {
                            lemma_math_in_joined(with_code(before.spec_bytes()), line_break);
                            lemma_math_in_joined(
                                with_code(before.spec_bytes()) + line_break,
                                with_breaks(after.spec_bytes()),
                            );
                            lemma_math_in_joined(done, with_breaks(rest.spec_bytes()));
                        }
                        return Err(error);
                    },
                }
                let chunk = TextChunk::NewLine;
                proof {
                    lemma_chunks_view_push(chunks@, chunk);
                }
                chunks.push(chunk);
                assert(chunks_view(chunks@) + with_breaks(after.spec_bytes()) =~= done
                    + with_breaks(rest.spec_bytes()));
                rest = after;
            },
            None => {
                match chunk_code(grammar, rest) {
                    Ok(mut tail) => {
                        proof {
                            lemma_chunks_view_add(chunks@, tail@);
                        }
                        chunks.append(&mut tail);
                        return Ok(chunks);
                    },
                    Err(error) => {
                        proof {
                            lemma_math_in_joined(done, with_breaks(rest.spec_bytes()));
                        }
                        return Err(error);
                    },
                }
            },
        }
    }
}

/// Chunks a text, links first: `[title](address)`. Fails only where a
/// formula does not render.
pub fn chunk_links(grammar: &Grammar, text: &str) -> (result: Result<Vec<TextChunk>, ParseError>)
    ensures
        match result {
            Ok(chunks) => chunks_view(chunks@) == with_links(text.spec_bytes()),
            Err(error) => error == ParseError::MathRenderFailure && chunks_have_math(
                with_links(text.spec_bytes()),
            ),
        },
{
    let mut chunks: Vec<TextChunk> = Vec::new();
    let mut rest = text;
    assert(chunks_view(chunks@) + with_links(rest.spec_bytes()) =~= with_links(text.spec_bytes()));
    loop
        invariant
            chunks_view(chunks@) + with_links(rest.spec_bytes()) == with_links(text.spec_bytes()),
        decreases rest.spec_bytes().len(),
    {
        proof {
            lemma_link_lengths(rest.spec_bytes());
        }
        let ghost done = chunks_view(chunks@);
        match split_link(rest) {
            Some((before, (title, address), after)) => {
                let ghost link = seq![
                    Chunk::Link {
                        title: with_breaks(title.spec_bytes()),
                        url: spelled(address.spec_bytes()),
                    },
                ];
                let ghost here = with_breaks(before.spec_bytes()) + link;
                match chunk_breaks(grammar, before) {
                    Ok(mut head) => {
                        proof {
                            lemma_chunks_view_add(chunks@, head@);
                        }
                        chunks.append(&mut head);
                    },
                    Err(error) => {
                        proof {
                            lemma_math_in_joined(with_breaks(before.spec_bytes()), link);
                            lemma_math_in_joined(here, with_links(after.spec_bytes()));
                            lemma_math_in_joined(done, with_links(rest.spec_bytes()));
                        }
                        return Err(error);
                    },
                }
                match chunk_breaks(grammar, title) {
                    Ok(title_chunks) => {
                        let chunk = TextChunk::Link { title: title_chunks, url: owned(address) };
                        proof {
                            lemma_chunks_view_push(chunks@, chunk);
                        }
                        chunks.push(chunk);
                    },
                    Err(error) => {
                        proof {
                            assert(chunk_has_math(link[0]));
                            lemma_math_in_joined(with_breaks(before.spec_bytes()), link);
                            lemma_math_in_joined(here, with_links(after.spec_bytes()));
                            lemma_math_in_joined(done, with_links(rest.spec_bytes()));
                        }
                        return Err(error);
                    },
                }
                assert(chunks_view(chunks@) + with_links(after.spec_bytes()) =~= done + with_links(
                    rest.spec_bytes(),
                ));
                rest = after;
            },
            None => {
                match chunk_breaks(grammar, rest) {
                    Ok(mut tail) => {
                        proof {
                            lemma_chunks_view_add(chunks@, tail@);
                        }
                        chunks.append(&mut tail);
                        return Ok(chunks);
                    },
                    Err(error) => {
                        proof {
                            lemma_math_in_joined(done, with_links(rest.spec_bytes()));
                        }
                        return Err(error);
                    },
                }
            },
        }
    }
}

/// The chunks that a line or paragraph of text is made of. Fails only where
/// a formula does not render, so never on a text without `$`.
pub fn chunk_text(grammar: &Grammar, text: &str) -> (result: Result<Vec<TextChunk>, ParseError>)
    ensures
        match result {
            Ok(chunks) => chunks_view(chunks@) == chunked(text.spec_bytes()),
            Err(error) => error == ParseError::MathRenderFailure && chunks_have_math(
                chunked(text.spec_bytes()),
            ),
        },
{
    chunk_links(grammar, text)
}

// ------------------------------------------------------------------- laws

/// A code span holds no `` ` ``, a formula no `$`, the title of a link no
/// `](` and its address no `)`: each ends where its closing delimiter first
/// stands.
pub proof fn lemma_spans_end_at_the_first_delimiter(text: Seq<u8>)
    ensures
        span_parts(text, lit("`")) matches Some(parts) ==> first_occurrence(parts.1, lit("`"))
            is None,
        span_parts(text, lit("$")) matches Some(parts) ==> first_occurrence(parts.1, lit("$"))
            is None,
        link_parts(text) matches Some(parts) ==> first_occurrence(parts.1, lit("](")) is None
            && first_occurrence(parts.2, lit(")")) is None,
{
    lemma_delimiters();
    if let Some((before, rest)) = split_at_first(text, lit("`")) {
        lemma_before_holds_no_delimiter(rest, lit("`"));
    }
    if let Some((before, rest)) = split_at_first(text, lit("$")) {
        lemma_before_holds_no_delimiter(rest, lit("$"));
    }
    if let Some((before, rest)) = split_at_first(text, lit("[")) {
        lemma_before_holds_no_delimiter(rest, lit("]("));
        if let Some((title, rest)) = split_at_first(rest, lit("](")) {
            lemma_before_holds_no_delimiter(rest, lit(")"));
        }
    }
}

/// A text without `$` holds no formula: none of its chunks is one, at any
/// depth.
pub proof fn lemma_no_dollar_no_formula(text: Seq<u8>)
    requires
        without(text, 0x24),
    ensures
        !chunks_have_math(chunked(text)),
{
    lemma_links_without_formula(text);
}

proof fn lemma_math_without_formula(text: Seq<u8>)
    requires
        without(text, 0x24),
    ensures
        !chunks_have_math(with_math(text)),
{
    lemma_delimiters();
    lemma_split_without(text, lit("$"), 0x24);
    lemma_styled_has_no_math(text, 0);
}

proof fn lemma_single_without_formula(chunk: Chunk)
    requires
        !chunk_has_math(chunk),
    ensures
        !chunks_have_math(seq![chunk]),
{
    let single = seq![chunk];
    assert forall|i: int| 0 <= i < single.len() implies !chunk_has_math(#[trigger] single[i]) by {
        assert(single[i] == chunk);
    }
}

proof fn lemma_code_without_formula(text: Seq<u8>)
    requires
        without(text, 0x24),
    ensures
        !chunks_have_math(with_code(text)),
    decreases text.len(),
{
    lemma_delimiters();
    lemma_span_lengths(text, lit("`"));
    lemma_split_without(text, lit("`"), 0x24);
    match span_parts(text, lit("`")) {
        Some((before, code, after)) => {
            let rest = split_at_first(text, lit("`")).unwrap().1;
            lemma_split_without(rest, lit("`"), 0x24);
            lemma_math_without_formula(before);
            lemma_code_without_formula(after);
            let span = Chunk::Code { text: spelled(code) };
            lemma_single_without_formula(span);
            lemma_math_in_joined(with_math(before), seq![span]);
            lemma_math_in_joined(with_math(before) + seq![span], with_code(after));
        },
        None => {
            lemma_math_without_formula(text);
        },
    }
}

proof fn lemma_breaks_without_formula(text: Seq<u8>)
    requires
        without(text, 0x24),
    ensures
        !chunks_have_math(with_breaks(text)),
    decreases text.len(),
{
    lemma_delimiters();
    lemma_split_lengths(text, lit("<br>"));
    lemma_split_without(text, lit("<br>"), 0x24);
    match split_at_first(text, lit("<br>")) {
        Some((before, after)) => {
            lemma_code_without_formula(before);
            lemma_breaks_without_formula(after);
            lemma_single_without_formula(Chunk::NewLine);
            lemma_math_in_joined(with_code(before), seq![Chunk::NewLine]);
            lemma_math_in_joined(with_code(before) + seq![Chunk::NewLine], with_breaks(after));
        },
        None => {
            lemma_code_without_formula(text);
        },
    }
}

proof fn lemma_links_without_formula(text: Seq<u8>)
    requires
        without(text, 0x24),
    ensures
        !chunks_have_math(with_links(text)),
    decreases text.len(),
{
    lemma_link_lengths(text);
    lemma_split_without(text, lit("["), 0x24);
    match link_parts(text) {
        Some((before, title, address, after)) => {
            let first = split_at_first(text, lit("[")).unwrap().1;
            lemma_split_without(first, lit("]("), 0x24);
            let second = split_at_first(first, lit("](")).unwrap().1;
            lemma_split_without(second, lit(")"), 0x24);
            lemma_breaks_without_formula(before);
            lemma_breaks_without_formula(title);
            lemma_links_without_formula(after);
            let link = Chunk::Link { title: with_breaks(title), url: spelled(address) };
            lemma_single_without_formula(link);
            lemma_math_in_joined(with_breaks(before), seq![link]);
            lemma_math_in_joined(with_breaks(before) + seq![link], with_links(after));
        },
        None => {
            lemma_breaks_without_formula(text);
        },
    }
}

/// The marker of a style that is written with two characters.
pub open spec fn double_marker(style: Style) -> Seq<u8> {
    match style {
        Style::Bold => lit("**"),
        Style::Underline => lit("__"),
        _ => lit("~~"),
    }
}

/// `marker` stands twice in `text`, the second time behind the first.
pub open spec fn holds_pair(text: Seq<u8>, marker: Seq<u8>) -> bool {
    exists|first: int, second: int|
        occurs_at(text, marker, first) && occurs_at(text, marker, second) && second >= first
            + marker.len()
}

/// No plain text in `chunk`, at any depth, holds a pair of `marker`.
pub open spec fn chunk_is_settled(chunk: Chunk, marker: Seq<u8>) -> bool
    decreases chunk,
{
    match chunk {
        Chunk::Text(text) => !holds_pair(vstd::utf8::encode_utf8(text), marker),
        Chunk::Link { title, .. } => chunks_are_settled(title, marker),
        Chunk::Styled { chunks, .. } => chunks_are_settled(chunks, marker),
        _ => true,
    }
}

/// No plain text in `chunks`, at any depth, holds a pair of `marker`.
pub open spec fn chunks_are_settled(chunks: Seq<Chunk>, marker: Seq<u8>) -> bool
    decreases chunks,
{
    forall|i: int| 0 <= i < chunks.len() ==> chunk_is_settled(#[trigger] chunks[i], marker)
}

proof fn lemma_joined_settled(left: Seq<Chunk>, right: Seq<Chunk>, marker: Seq<u8>)
    requires
        chunks_are_settled(left, marker),
        chunks_are_settled(right, marker),
    ensures
        chunks_are_settled(left + right, marker),
{
    assert forall|i: int| 0 <= i < (left + right).len() implies chunk_is_settled(
        #[trigger] (left + right)[i],
        marker,
    ) by {
        if i < left.len() {
            assert((left + right)[i] == left[i]);
        } else {
            assert((left + right)[i] == right[i - left.len()]);
        }
    }
}

proof fn lemma_single_settled(chunk: Chunk, marker: Seq<u8>)
    requires
        chunk_is_settled(chunk, marker),
    ensures
        chunks_are_settled(seq![chunk], marker),
{
    assert forall|i: int| 0 <= i < seq![chunk].len() implies chunk_is_settled(
        #[trigger] seq![chunk][i],
        marker,
    ) by {}
}

/// The bytes of the markers that are written with two characters.
proof fn lemma_double_markers()
    ensures
        lit("**") == seq![0x2au8, 0x2au8],
        lit("__") == seq![0x5fu8, 0x5fu8],
        lit("~~") == seq![0x7eu8, 0x7eu8],
{
    reveal_strlit("**");
    reveal_strlit("__");
    reveal_strlit("~~");
    is_ascii_chars_encode_utf8("**"@);
    is_ascii_chars_encode_utf8("__"@);
    is_ascii_chars_encode_utf8("~~"@);
    assert(lit("**") =~= seq![0x2au8, 0x2au8]);
    assert(lit("__") =~= seq![0x5fu8, 0x5fu8]);
    assert(lit("~~") =~= seq![0x7eu8, 0x7eu8]);
}

/// Where a pattern stands, its leftmost occurrence stands at or before.
proof fn lemma_leftmost_exists(text: Seq<u8>, pattern: Seq<u8>, at: int)
    requires
        occurs_at(text, pattern, at),
    ensures
        first_occurrence(text, pattern) matches Some(first) && first <= at,
    decreases at,
{
    if exists|earlier: int| 0 <= earlier < at && occurs_at(text, pattern, earlier) {
        let earlier = choose|earlier: int| 0 <= earlier < at && occurs_at(text, pattern, earlier);
        lemma_leftmost_exists(text, pattern, earlier);
    } else {
        assert(crate::text::leftmost(text, pattern, at));
        crate::text::lemma_first_occurrence(text, pattern, at);
    }
}

/// An occurrence at or behind `from` is an occurrence in what is left behind
/// `from`.
proof fn lemma_occurrence_in_rest(text: Seq<u8>, pattern: Seq<u8>, from: int, at: int)
    requires
        0 <= from <= at,
        from <= text.len(),
        occurs_at(text, pattern, at),
    ensures
        occurs_at(text.skip(from), pattern, at - from),
{
    assert(text.skip(from).subrange(at - from, at - from + pattern.len()) =~= text.subrange(
        at,
        at + pattern.len(),
    ));
}

/// An occurrence in a part of a text is an occurrence in the text.
proof fn lemma_occurrence_in_whole(
    text: Seq<u8>,
    pattern: Seq<u8>,
    from: int,
    to: int,
    at: int,
)
    requires
        0 <= from <= to <= text.len(),
        occurs_at(text.subrange(from, to), pattern, at),
    ensures
        occurs_at(text, pattern, from + at),
        from + at + pattern.len() <= to,
{
    assert(text.subrange(from, to).subrange(at, at + pattern.len()) =~= text.subrange(
        from + at,
        from + at + pattern.len(),
    ));
}

/// Every occurrence of `marker` that begins before `from` has none behind
/// it.
pub open spec fn settled_before(text: Seq<u8>, marker: Seq<u8>, from: int) -> bool {
    forall|first: int, second: int|
        #![trigger occurs_at(text, marker, first), occurs_at(text, marker, second)]
        occurs_at(text, marker, first) && first < from && occurs_at(text, marker, second)
            ==> second < first + marker.len()
}

proof fn lemma_styled_settled(text: Seq<u8>, from: int, style: Style)
    requires
        style != Style::Italic,
        vstd::utf8::valid_utf8(text),
        0 <= from <= text.len(),
        boundary(text, from),
        settled_before(text, double_marker(style), from),
    ensures
        chunks_are_settled(styled_from(text, from), double_marker(style)),
    decreases text.len(), text.len() - from,
{
    let marker = double_marker(style);
    lemma_double_markers();
    lemma_styled_step(text, from);
    let rest = text.skip(from);
    crate::text::lemma_cut_is_valid(text, from, text.len() as int);
    assert(rest =~= text.subrange(from, text.len() as int));
    lemma_first_marker_fits(rest);
    assert forall|at: int| from <= at && occurs_at(text, marker, at) implies first_marker(
        rest,
    ) matches Some((offset, found)) && from + offset <= at && (from + offset == at ==> found
        != Style::Italic) by {
        lemma_occurrence_in_rest(text, marker, from, at);
        lemma_leftmost_exists(rest, marker, at - from);
    }
    match first_marker(rest) {
        None => {
            vstd::utf8::decode_utf8_encode_utf8(text);
            assert(!holds_pair(text, marker));
            lemma_single_settled(Chunk::Text(spelled(text)), marker);
        },
        Some((offset, found)) => {
            let open = from + offset;
            let inside = open + found.width();
            lemma_marker_fits(rest, found);
            match marker_at(text.skip(inside), found) {
                Some(length) => {
                    let close = inside + length;
                    let before = text.take(open);
                    let middle = text.subrange(inside, close);
                    let after = text.skip(close + found.width());
                    crate::text::lemma_cut_is_valid(text, 0, open);
                    crate::text::lemma_cut_is_valid(text, inside, close);
                    crate::text::lemma_cut_is_valid(
                        text,
                        close + found.width(),
                        text.len() as int,
                    );
                    assert(before =~= text.subrange(0, open));
                    assert(after =~= text.subrange(close + found.width(), text.len() as int));
                    vstd::utf8::decode_utf8_encode_utf8(before);
                    assert(!holds_pair(before, marker)) by {
                        if holds_pair(before, marker) {
                            let (first, second) = choose|first: int, second: int|
                                occurs_at(before, marker, first) && occurs_at(
                                    before,
                                    marker,
                                    second,
                                ) && second >= first + marker.len();
                            lemma_occurrence_in_whole(text, marker, 0, open, first);
                            lemma_occurrence_in_whole(text, marker, 0, open, second);
                        }
                    }
                    lemma_styled_settled(middle, 0, style);
                    lemma_styled_settled(after, 0, style);
                    let styled_chunk = Chunk::Styled {
                        style: found,
                        chunks: styled_from(middle, 0),
                    };
                    lemma_single_settled(Chunk::Text(spelled(before)), marker);
                    lemma_single_settled(styled_chunk, marker);
                    lemma_joined_settled(
                        seq![Chunk::Text(spelled(before))],
                        seq![styled_chunk],
                        marker,
                    );
                    lemma_joined_settled(
                        seq![Chunk::Text(spelled(before))] + seq![styled_chunk],
                        styled_from(after, 0),
                        marker,
                    );
                },
                None => {
                    assert(settled_before(text, marker, inside)) by {
                        assert forall|first: int, second: int|
                            #![trigger occurs_at(text, marker, first), occurs_at(text, marker, second)]
                            occurs_at(text, marker, first) && first < inside && occurs_at(
                                text,
                                marker,
                                second,
                            ) implies second < first + marker.len() by {
                            if first >= from && second >= first + marker.len() {
                                assert(first >= open);
                                if found == style {
                                    lemma_occurrence_in_rest(text, marker, inside, second);
                                    lemma_leftmost_exists(
                                        text.skip(inside),
                                        marker,
                                        second - inside,
                                    );
                                } else {
                                    assert(rest[offset] == text[open]);
                                    assert(text.subrange(first, first + 2)[0] == text[first]);
                                    if found != Style::Italic {
                                        assert(occurs_at(rest, double_marker(found), offset));
                                        assert(rest.subrange(offset, offset + 2)[0] == rest[offset]);
                                        assert(rest.subrange(offset, offset + 2)[1] == rest[offset
                                            + 1]);
                                        assert(rest[offset + 1] == text[open + 1]);
                                    }
                                }
                            }
                        }
                    }
                    lemma_styled_settled(text, inside, style);
                },
            }
        },
    }
}

/// In the chunks of a text in which only emphasis was left to find, no
/// plain text holds a pair of `**`, of `__` or of `~~`: every pair has
/// become a style.
pub proof fn lemma_pairs_become_styles(text: Seq<u8>, style: Style)
    requires
        style != Style::Italic,
        vstd::utf8::valid_utf8(text),
    ensures
        chunks_are_settled(styled(text), double_marker(style)),
{
    crate::text::lemma_boundary(text, 0);
    vstd::utf8::is_char_boundary_start_end_of_seq(text);
    lemma_styled_settled(text, 0, style);
}

proof fn lemma_split_valid(text: Seq<u8>, delimiter: &str)
    requires
        vstd::utf8::valid_utf8(text),
        lit(delimiter).len() > 0,
    ensures
        split_at_first(text, lit(delimiter)) matches Some(parts) ==> vstd::utf8::valid_utf8(
            parts.0,
        ) && vstd::utf8::valid_utf8(parts.1),
{
    lemma_occurrence_fits(text, lit(delimiter));
    if let Some(at) = first_occurrence(text, lit(delimiter)) {
        lemma_str_is_valid(delimiter);
        lemma_occurrence_on_boundaries(text, lit(delimiter), at);
        crate::text::lemma_cut_is_valid(text, 0, at);
        crate::text::lemma_cut_is_valid(text, at + lit(delimiter).len(), text.len() as int);
    }
}

proof fn lemma_math_settled(text: Seq<u8>, style: Style)
    requires
        style != Style::Italic,
        vstd::utf8::valid_utf8(text),
    ensures
        chunks_are_settled(with_math(text), double_marker(style)),
    decreases text.len(),
{
    let marker = double_marker(style);
    lemma_delimiters();
    lemma_span_lengths(text, lit("$"));
    lemma_split_valid(text, "$");
    match span_parts(text, lit("$")) {
        Some((before, tex, after)) => {
            let rest = split_at_first(text, lit("$")).unwrap().1;
            lemma_split_valid(rest, "$");
            lemma_pairs_become_styles(before, style);
            lemma_math_settled(after, style);
            let formula = Chunk::Math { text: katex_markup(spelled(tex), false) };
            lemma_single_settled(formula, marker);
            lemma_joined_settled(styled(before), seq![formula], marker);
            lemma_joined_settled(styled(before) + seq![formula], with_math(after), marker);
        },
        None => {
            lemma_pairs_become_styles(text, style);
        },
    }
}

proof fn lemma_code_settled(text: Seq<u8>, style: Style)
    requires
        style != Style::Italic,
        vstd::utf8::valid_utf8(text),
    ensures
        chunks_are_settled(with_code(text), double_marker(style)),
    decreases text.len(),
{
    let marker = double_marker(style);
    lemma_delimiters();
    lemma_span_lengths(text, lit("`"));
    lemma_split_valid(text, "`");
    match span_parts(text, lit("`")) {
        Some((before, code, after)) => {
            let rest = split_at_first(text, lit("`")).unwrap().1;
            lemma_split_valid(rest, "`");
            lemma_math_settled(before, style);
            lemma_code_settled(after, style);
            let span = Chunk::Code { text: spelled(code) };
            lemma_single_settled(span, marker);
            lemma_joined_settled(with_math(before), seq![span], marker);
            lemma_joined_settled(with_math(before) + seq![span], with_code(after), marker);
        },
        None => {
            lemma_math_settled(text, style);
        },
    }
}

proof fn lemma_breaks_settled(text: Seq<u8>, style: Style)
    requires
        style != Style::Italic,
        vstd::utf8::valid_utf8(text),
    ensures
        chunks_are_settled(with_breaks(text), double_marker(style)),
    decreases text.len(),
{
    let marker = double_marker(style);
    lemma_delimiters();
    lemma_split_lengths(text, lit("<br>"));
    lemma_split_valid(text, "<br>");
    match split_at_first(text, lit("<br>")) {
        Some((before, after)) => {
            lemma_code_settled(before, style);
            lemma_breaks_settled(after, style);
            lemma_single_settled(Chunk::NewLine, marker);
            lemma_joined_settled(with_code(before), seq![Chunk::NewLine], marker);
            lemma_joined_settled(
                with_code(before) + seq![Chunk::NewLine],
                with_breaks(after),
                marker,
            );
        },
        None => {
            lemma_code_settled(text, style);
        },
    }
}

/// In the chunks of a text no plain text holds a pair of `**`, of `__` or of
/// `~~`, at any depth: every pair that is no code and no link has become a
/// style.
pub proof fn lemma_plain_text_holds_no_pair(text: Seq<u8>, style: Style)
    requires
        style != Style::Italic,
        vstd::utf8::valid_utf8(text),
    ensures
        chunks_are_settled(chunked(text), double_marker(style)),
    decreases text.len(),
{
    let marker = double_marker(style);
    lemma_delimiters();
    lemma_link_lengths(text);
    lemma_split_valid(text, "[");
    match link_parts(text) {
        Some((before, title, address, after)) => {
            let first = split_at_first(text, lit("[")).unwrap().1;
            lemma_split_valid(first, "](");
            let second = split_at_first(first, lit("](")).unwrap().1;
            lemma_split_valid(second, ")");
            lemma_breaks_settled(before, style);
            lemma_breaks_settled(title, style);
            lemma_plain_text_holds_no_pair(after, style);
            let link = Chunk::Link { title: with_breaks(title), url: spelled(address) };
            lemma_single_settled(link, marker);
            lemma_joined_settled(with_breaks(before), seq![link], marker);
            lemma_joined_settled(with_breaks(before) + seq![link], with_links(after), marker);
        },
        None => {
            lemma_breaks_settled(text, style);
        },
    }
}

} // verus!
