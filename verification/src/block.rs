//! Blocks: the text of a text box, cut into headers, code, formulas, rules,
//! lists, quotes, images and paragraphs.
//!
//! The rules are tried in that order on what is left of the text, and each
//! one that applies takes a piece from its front.

use vstd::prelude::*;
use vstd::string::{StringExecFns, StringSliceAdditionalSpecFns};
use vstd::utf8::{encode_scalar, encode_utf8, is_ascii_chars_encode_utf8};

use crate::error::ParseError;
use crate::inline::{chunk_text, chunked, chunks_have_math};
use crate::math::{katex_markup, render};
use crate::pattern::{
    image_pattern, leading_match, ordered_pattern, quote_pattern, unordered_pattern, Grammar,
    Rule,
};
use crate::space::{
    capped, count_indent, indent_width, lemma_ascii_boundaries, lemma_trimmed_lengths,
    scope_parts, space_width_before, split_scope, trim, trim_start, trimmed, trimmed_start,
};
use crate::text::{
    boundary, has_prefix, lemma_joined_without, lemma_occurrence_fits, lemma_part_without,
    lemma_prefix_ends_on_boundary, lemma_split_lengths, lemma_split_without,
    lemma_str_is_valid, length, lit, owned, skip, slice, spelled, split, split_at_first,
    split_or_end, split_or_rest, starts_with, without,
};
use crate::tree::{block_view, blocks_view, lemma_blocks_view_push, Block, TextBlock};

verus! {

/// A block as it is first cut from the text, its own text not yet chunked.
pub enum Precursor {
    Header { level: int, text: Seq<u8> },
    CodeBlock { text: Seq<u8> },
    MathBlock { text: Seq<u8> },
    UnorderedList { items: Seq<Precursor> },
    OrderedList { items: Seq<Precursor> },
    BlockQuote { inner: Seq<Precursor> },
    Image { url: Seq<u8>, alt: Seq<u8> },
    /// One line feed between two paragraphs: it parts them, and shows as
    /// nothing.
    SpacelessBreak,
    VerticalSpace,
    HorizontalRule,
    Paragraph { text: Seq<u8> },
}

/// The bytes of the literals that the block rules look for.
pub proof fn lemma_block_literals()
    ensures
        lit("```").len() == 3,
        lit("$$").len() == 2,
        lit("$$") == seq![0x24u8, 0x24u8],
        lit("\n") == seq![0x0au8],
        lit(" ") == seq![0x20u8],
{
    reveal_strlit("```");
    reveal_strlit("$$");
    reveal_strlit("\n");
    reveal_strlit(" ");
    is_ascii_chars_encode_utf8("```"@);
    is_ascii_chars_encode_utf8("$$"@);
    is_ascii_chars_encode_utf8("\n"@);
    is_ascii_chars_encode_utf8(" "@);
    assert(lit("\n") =~= seq![0x0au8]);
    assert(lit(" ") =~= seq![0x20u8]);
    assert(lit("$$") =~= seq![0x24u8, 0x24u8]);
}

/// The UTF-8 form of a joined text is the joined UTF-8 forms.
pub proof fn lemma_encode_joined(left: Seq<char>, right: Seq<char>)
    ensures
        encode_utf8(left + right) == encode_utf8(left) + encode_utf8(right),
    decreases left.len(),
{
    if left.len() == 0 {
        assert(left + right =~= right);
        assert(encode_utf8(left) + encode_utf8(right) =~= encode_utf8(right));
    } else {
        assert((left + right).drop_first() =~= left.drop_first() + right);
        lemma_encode_joined(left.drop_first(), right);
        assert(encode_utf8(left + right) =~= encode_scalar(left[0] as u32) + (encode_utf8(
            left.drop_first(),
        ) + encode_utf8(right)));
        assert(encode_utf8(left + right) =~= encode_utf8(left) + encode_utf8(right));
    }
}

/// Both sides of `split_or_rest` together are no longer than the text.
pub proof fn lemma_split_or_rest_lengths(text: Seq<u8>, delimiter: Seq<u8>)
    ensures
        split_or_rest(text, delimiter).0.len() + split_or_rest(text, delimiter).1.len()
            <= text.len(),
        split_at_first(text, delimiter) is Some ==> split_or_rest(text, delimiter).0.len()
            + delimiter.len() + split_or_rest(text, delimiter).1.len() == text.len(),
{
    lemma_split_lengths(text, delimiter);
}

// ------------------------------------------------------------------ rules

/// How many of `byte` stand in a row from `from` on.
pub open spec fn run_length(text: Seq<u8>, byte: u8, from: int) -> nat
    decreases text.len() - from,
{
    if from < 0 || from >= text.len() || text[from] != byte {
        0
    } else {
        1 + run_length(text, byte, from + 1)
    }
}

/// A run stays inside the text, and ends between characters where the byte
/// is ASCII.
pub proof fn lemma_run_length(text: Seq<u8>, byte: u8, from: int)
    requires
        0 <= from <= text.len(),
    ensures
        from + run_length(text, byte, from) <= text.len(),
        forall|i: int| from <= i < from + run_length(text, byte, from) ==> text[i] == byte,
        from + run_length(text, byte, from) < text.len() ==> text[from + run_length(
            text,
            byte,
            from,
        )] != byte,
    decreases text.len() - from,
{
    if from < text.len() && text[from] == byte {
        lemma_run_length(text, byte, from + 1);
    }
}

/// The level of the header that `text` begins with: the number of `#`, one
/// to six, that a space follows.
pub open spec fn header_level(text: Seq<u8>) -> Option<int> {
    let hashes = run_length(text, 0x23, 0);
    if 1 <= hashes <= 6 && hashes < text.len() && text[hashes as int] == 0x20 {
        Some(hashes as int)
    } else {
        None
    }
}

/// What stands after the line that `text` begins with.
pub open spec fn after_line(text: Seq<u8>) -> Seq<u8> {
    split_or_rest(text, lit("\n")).1
}

/// The inside of the fenced block that `text` begins with, and what follows
/// the closing fence.
pub open spec fn fenced(text: Seq<u8>, fence: Seq<u8>) -> Option<(Seq<u8>, Seq<u8>)> {
    if has_prefix(text, fence) {
        split_at_first(trimmed_start(text.skip(fence.len() as int)), fence)
    } else {
        None
    }
}

/// How far the marker of the list item reaches that `text` begins with, and
/// how wide the marker itself is.
pub open spec fn marker(text: Seq<u8>, pattern: Seq<char>) -> Option<(int, int)> {
    match leading_match(pattern, text) {
        Some(spans) => if spans.len() >= 2 && spans[1] is Some {
            Some(
                (
                    spans[0].unwrap().1 as int,
                    spans[1].unwrap().1 as int - spans[1].unwrap().0 as int,
                ),
            )
        } else {
            None
        },
        None => None,
    }
}

/// The pattern of a list marker.
pub open spec fn list_pattern(ordered: bool) -> Seq<char> {
    if ordered {
        ordered_pattern()
    } else {
        unordered_pattern()
    }
}

/// The indentation that the lines of a list item must at least have: that of
/// its first line and the width of its marker.
pub open spec fn item_level(text: Seq<u8>, width: int) -> int {
    capped(capped(indent_width(text, 0) as int) + width) as int
}

/// The body of the list item that `text` begins with, and what follows the
/// item: the item runs up to the first later line that is indented by less
/// than `item_level`.
pub open spec fn item_and_rest(text: Seq<u8>, ordered: bool) -> Option<(Seq<u8>, Seq<u8>)> {
    if text.len() == 0 {
        None
    } else {
        match marker(text, list_pattern(ordered)) {
            Some((end, width)) => {
                let (scope, rest) = scope_parts(text, item_level(text, width), false);
                let body = if end <= scope.len() {
                    scope.skip(end)
                } else {
                    Seq::empty()
                };
                Some((body, rest))
            },
            None => None,
        }
    }
}

/// How far the quoted line reaches that `text` begins with, and what it
/// quotes.
pub open spec fn quote_line(text: Seq<u8>) -> Option<(int, Seq<u8>)> {
    match leading_match(quote_pattern(), text) {
        Some(spans) => if spans.len() >= 2 && spans[1] is Some && 1 <= spans[1].unwrap().0
            && spans[1].unwrap().1 <= spans[0].unwrap().1 {
            Some(
                (
                    spans[0].unwrap().1 as int,
                    text.subrange(spans[1].unwrap().0 as int, spans[1].unwrap().1 as int),
                ),
            )
        } else {
            None
        },
        None => None,
    }
}

/// What the quoted lines quote that `text` begins with, each followed by a
/// line feed.
pub open spec fn quote_contents(text: Seq<u8>) -> Seq<u8>
    decreases text.len(),
{
    if text.len() == 0 {
        Seq::empty()
    } else {
        match quote_line(text) {
            Some((end, line)) => line + lit("\n") + quote_contents(text.skip(end)),
            None => Seq::empty(),
        }
    }
}

/// What follows the quoted lines that `text` begins with.
pub open spec fn quote_rest(text: Seq<u8>) -> Seq<u8>
    decreases text.len(),
{
    if text.len() == 0 {
        text
    } else {
        match quote_line(text) {
            Some((end, line)) => quote_rest(text.skip(end)),
            None => text,
        }
    }
}

/// How far the image reaches that `text` begins with, its alternative text
/// and its address.
pub open spec fn image_parts(text: Seq<u8>) -> Option<(int, Seq<u8>, Seq<u8>)> {
    match leading_match(image_pattern(), text) {
        Some(spans) => if spans.len() >= 3 && spans[1] is Some && spans[2] is Some {
            Some(
                (
                    spans[0].unwrap().1 as int,
                    text.subrange(spans[1].unwrap().0 as int, spans[1].unwrap().1 as int),
                    text.subrange(spans[2].unwrap().0 as int, spans[2].unwrap().1 as int),
                ),
            )
        } else {
            None
        },
        None => None,
    }
}

/// What follows the list items that `text` begins with.
pub open spec fn list_rest(text: Seq<u8>, ordered: bool) -> Seq<u8>
    decreases text.len(),
{
    match item_and_rest(text, ordered) {
        Some((body, rest)) => {
            proof {
                lemma_item_and_rest(text, ordered);
            }
            list_rest(rest, ordered)
        },
        None => text,
    }
}

/// `blank` times `VerticalSpace`.
pub open spec fn vertical_spaces(blank: int) -> Seq<Precursor> {
    Seq::new(blank as nat, |i: int| Precursor::VerticalSpace)
}

/// `done` with one more line of paragraph text: joined by a space to the
/// paragraph that `done` ends with, or as a paragraph of its own.
pub open spec fn with_paragraph(done: Seq<Precursor>, line: Seq<u8>) -> Seq<Precursor> {
    if done.len() > 0 && done.last() is Paragraph {
        done.drop_last().push(
            Precursor::Paragraph { text: done.last()->Paragraph_text + lit(" ") + line },
        )
    } else {
        done.push(Precursor::Paragraph { text: line })
    }
}

/// An item and what follows it are parts of the text, and the item is
/// taken from its front.
pub proof fn lemma_item_and_rest(text: Seq<u8>, ordered: bool)
    ensures
        item_and_rest(text, ordered) matches Some((body, rest)) ==> body.len() < text.len()
            && rest.len() < text.len(),
{
    if text.len() > 0 {
        if let Some((end, width)) = marker(text, list_pattern(ordered)) {
            let level = item_level(text, width);
            lemma_scope_end_fits(text, level);
        }
    }
}

/// The scope of a text that is not empty holds at least its first byte.
pub proof fn lemma_scope_end_fits(text: Seq<u8>, indent: int)
    requires
        text.len() > 0,
    ensures
        0 < crate::space::scope_end(text, indent, 0, false) <= text.len(),
{
    crate::space::lemma_line_end(text, 0);
    lemma_scope_bounds(text, indent, crate::space::next_line(text, 0), true);
}

/// A scope ends at or after where the search begins, inside the text.
pub proof fn lemma_scope_bounds(text: Seq<u8>, indent: int, at: int, test: bool)
    requires
        0 <= at <= text.len(),
    ensures
        at <= crate::space::scope_end(text, indent, at, test) <= text.len(),
    decreases text.len() - at,
{
    if at < text.len() && !(test && indent_width(text, at) < indent) {
        crate::space::lemma_line_end(text, at);
        lemma_scope_bounds(text, indent, crate::space::next_line(text, at), true);
    }
}

/// The quoted lines and what follows them fit into the text; where there is
/// a quoted line, the contents end with a line feed and the rest is shorter.
pub proof fn lemma_quote_lengths(text: Seq<u8>)
    ensures
        quote_contents(text).len() + quote_rest(text).len() <= text.len(),
        text.len() > 0 && quote_line(text) is Some ==> {
            &&& quote_contents(text).len() > 0
            &&& quote_contents(text).last() == 0x0au8
            &&& quote_rest(text).len() < text.len()
        },
    decreases text.len(),
{
    lemma_block_literals();
    if text.len() > 0 {
        if let Some((end, line)) = quote_line(text) {
            let tail = text.skip(end);
            lemma_quote_lengths(tail);
            let more = quote_contents(tail);
            let contents = line + lit("\n") + more;
            assert(contents.len() == line.len() + 1 + more.len());
            if more.len() == 0 {
                assert(contents.last() == lit("\n")[0]);
            } else {
                assert(contents.last() == more.last());
                if tail.len() == 0 || quote_line(tail) is None {
                    assert(more.len() == 0);
                }
            }
        }
    }
}

/// The rules that cut a block from the front of a text, in the order in
/// which they are tried.
pub enum BlockRule {
    Header,
    Code,
    Math,
    Rule,
    Unordered,
    Ordered,
    Quote,
    Image,
    Blank,
    Paragraph,
}

/// The first rule that applies to `text`.
pub open spec fn block_rule(text: Seq<u8>) -> BlockRule {
    if header_level(text) is Some {
        BlockRule::Header
    } else if fenced(text, lit("```")) is Some {
        BlockRule::Code
    } else if fenced(text, lit("$$")) is Some {
        BlockRule::Math
    } else if run_length(text, 0x2d, 0) >= 3 {
        BlockRule::Rule
    } else if item_and_rest(text, false) is Some {
        BlockRule::Unordered
    } else if item_and_rest(text, true) is Some {
        BlockRule::Ordered
    } else if quote_line(text) is Some {
        BlockRule::Quote
    } else if image_parts(text) is Some {
        BlockRule::Image
    } else if text.len() > 0 && text[0] == 0x0a {
        BlockRule::Blank
    } else {
        BlockRule::Paragraph
    }
}

/// What is left of `text` behind the block that its first rule cuts.
pub open spec fn rest_after_block(text: Seq<u8>) -> Seq<u8> {
    match block_rule(text) {
        BlockRule::Header => after_line(text.skip(header_level(text).unwrap() + 1)),
        BlockRule::Code => after_line(fenced(text, lit("```")).unwrap().1),
        BlockRule::Math => after_line(fenced(text, lit("$$")).unwrap().1),
        BlockRule::Rule => after_line(text.skip(run_length(text, 0x2d, 0) as int)),
        BlockRule::Unordered => list_rest(text, false),
        BlockRule::Ordered => list_rest(text, true),
        BlockRule::Quote => quote_rest(text),
        BlockRule::Image => text.skip(image_parts(text).unwrap().0),
        BlockRule::Blank => text.skip(run_length(text, 0x0a, 0) as int),
        BlockRule::Paragraph => split_or_rest(text, lit("\n")).1,
    }
}

/// `done` and the block that the first rule cuts from `text`.
///
/// A header takes the rest of its line, without the white space that the
/// rest begins with. Code and formulas run from fence to
/// fence, and a rule is three or more `-`; what follows them on their line
/// is dropped. A list holds the blocks of its items, a quote the blocks of
/// what its lines quote. Of a run of line feeds the first parts two
/// paragraphs and each further one is a vertical space. Any other line is
/// paragraph text.
pub open spec fn with_block(text: Seq<u8>, done: Seq<Precursor>) -> Seq<Precursor>
    decreases text.len(), 1int,
    via with_block_decreases
{
    match block_rule(text) {
        BlockRule::Header => done.push(
            Precursor::Header {
                level: header_level(text).unwrap(),
                text: trimmed_start(
                    split_or_rest(text.skip(header_level(text).unwrap() + 1), lit("\n")).0,
                ),
            },
        ),
        BlockRule::Code => done.push(
            Precursor::CodeBlock { text: trimmed(fenced(text, lit("```")).unwrap().0) },
        ),
        BlockRule::Math => done.push(
            Precursor::MathBlock { text: trimmed(fenced(text, lit("$$")).unwrap().0) },
        ),
        BlockRule::Rule => done.push(Precursor::HorizontalRule),
        BlockRule::Unordered => done.push(
            Precursor::UnorderedList { items: list_items(text, false) },
        ),
        BlockRule::Ordered => done.push(Precursor::OrderedList { items: list_items(text, true) }),
        BlockRule::Quote => done.push(
            Precursor::BlockQuote { inner: scan(trimmed(quote_contents(text)), Seq::empty()) },
        ),
        BlockRule::Image => done.push(
            Precursor::Image { url: image_parts(text).unwrap().2, alt: image_parts(text).unwrap().1 },
        ),
        BlockRule::Blank => done.push(Precursor::SpacelessBreak) + vertical_spaces(
            run_length(text, 0x0a, 0) - 1,
        ),
        BlockRule::Paragraph => with_paragraph(done, split_or_rest(text, lit("\n")).0),
    }
}

/// The blocks of `text` behind the blocks `done` that were cut before it:
/// one block after the other is cut from the front of the text, each by the
/// first rule that applies.
pub open spec fn scan(text: Seq<u8>, done: Seq<Precursor>) -> Seq<Precursor>
    decreases text.len(), 2int,
    via scan_decreases
{
    if text.len() == 0 {
        done
    } else {
        scan(rest_after_block(text), with_block(text, done))
    }
}

/// The blocks of the list items that `text` begins with, one item after the
/// other.
pub open spec fn list_items(text: Seq<u8>, ordered: bool) -> Seq<Precursor>
    decreases text.len(), 0int,
    via list_items_decreases
{
    match item_and_rest(text, ordered) {
        Some((body, rest)) => scan(trimmed(body), Seq::empty()) + list_items(rest, ordered),
        None => Seq::empty(),
    }
}

#[via_fn]
proof fn list_items_decreases(text: Seq<u8>, ordered: bool) {
    lemma_item_and_rest(text, ordered);
    if let Some((body, rest)) = item_and_rest(text, ordered) {
        lemma_trimmed_lengths(body);
    }
}

#[via_fn]
proof fn with_block_decreases(text: Seq<u8>, done: Seq<Precursor>) {
    if text.len() > 0 {
        lemma_scan_step(text);
    } else {
        assert(quote_line(text) is None) by {
            if let Some(spans) = leading_match(quote_pattern(), text) {
                assert(spans[0] is Some);
            }
        }
    }
}

#[via_fn]
proof fn scan_decreases(text: Seq<u8>, done: Seq<Precursor>) {
    if text.len() > 0 {
        lemma_scan_step(text);
    }
}

/// Every rule that applies leaves less text than it found.
pub proof fn lemma_scan_step(text: Seq<u8>)
    requires
        text.len() > 0,
    ensures
        header_level(text) matches Some(level) ==> after_line(text.skip(level + 1)).len()
            < text.len(),
        fenced(text, lit("```")) matches Some(parts) ==> after_line(parts.1).len() < text.len(),
        fenced(text, lit("$$")) matches Some(parts) ==> after_line(parts.1).len() < text.len(),
        run_length(text, 0x2d, 0) >= 3 ==> after_line(
            text.skip(run_length(text, 0x2d, 0) as int),
        ).len() < text.len(),
        item_and_rest(text, false) is Some ==> list_rest(text, false).len() < text.len(),
        item_and_rest(text, true) is Some ==> list_rest(text, true).len() < text.len(),
        quote_line(text) is Some ==> quote_rest(text).len() < text.len() && trimmed(
            quote_contents(text),
        ).len() < text.len(),
        image_parts(text) matches Some(parts) ==> 0 < parts.0 <= text.len(),
        text[0] == 0x0a ==> 1 <= run_length(text, 0x0a, 0) <= text.len(),
        split_or_rest(text, lit("\n")).1.len() < text.len(),
        rest_after_block(text).len() < text.len(),
{
    lemma_block_literals();
    if let Some(level) = header_level(text) {
        lemma_split_or_rest_lengths(text.skip(level + 1), lit("\n"));
    }
    lemma_fenced_lengths(text, lit("```"));
    lemma_fenced_lengths(text, lit("$$"));
    if run_length(text, 0x2d, 0) >= 3 {
        lemma_run_length(text, 0x2d, 0);
        lemma_split_or_rest_lengths(text.skip(run_length(text, 0x2d, 0) as int), lit("\n"));
    }
    lemma_list_rest(text, false);
    lemma_list_rest(text, true);
    if quote_line(text) is Some {
        lemma_quote_lengths(text);
        let contents = quote_contents(text);
        assert(space_width_before(contents, contents.len() as int) > 0);
        lemma_trimmed_lengths(contents);
    }
    lemma_run_length(text, 0x0a, 0);
    lemma_split_or_rest_lengths(text, lit("\n"));
    lemma_occurrence_fits(text, lit("\n"));
}

/// What follows a fenced block is shorter than the text by the two fences.
pub proof fn lemma_fenced_lengths(text: Seq<u8>, fence: Seq<u8>)
    requires
        fence.len() > 0,
    ensures
        fenced(text, fence) matches Some(parts) ==> after_line(parts.1).len() < text.len()
            && parts.0.len() + parts.1.len() + 2 * fence.len() <= text.len(),
{
    if let Some(parts) = fenced(text, fence) {
        let tail = text.skip(fence.len() as int);
        lemma_trimmed_lengths(tail);
        lemma_split_lengths(trimmed_start(tail), fence);
        lemma_split_or_rest_lengths(parts.1, lit("\n"));
    }
}

/// What follows the items of a list is no longer than the text, and shorter
/// where there is an item.
pub proof fn lemma_list_rest(text: Seq<u8>, ordered: bool)
    ensures
        list_rest(text, ordered).len() <= text.len(),
        item_and_rest(text, ordered) is Some ==> list_rest(text, ordered).len() < text.len(),
    decreases text.len(),
{
    lemma_item_and_rest(text, ordered);
    if let Some((body, rest)) = item_and_rest(text, ordered) {
        lemma_list_rest(rest, ordered);
    }
}

/// The blocks of `text`, before their own text is chunked.
pub open spec fn precursors(text: Seq<u8>) -> Seq<Precursor> {
    scan(trimmed(text), Seq::empty())
}

// ------------------------------------------------------------- the parser

/// A block as it is first cut from the text, its own text not yet chunked.
#[derive(Debug, PartialEq, Eq)]
pub enum TextBlockPrecursor {
    Header { level: u8, text: String },
    CodeBlock { text: String },
    MathBlock { text: String },
    UnorderedList { items: Vec<TextBlockPrecursor> },
    OrderedList { items: Vec<TextBlockPrecursor> },
    BlockQuote { inner: Vec<TextBlockPrecursor> },
    Image { url: String, alt: String },
    SpacelessBreak,
    VerticalSpace,
    HorizontalRule,
    Paragraph { text: String },
}

/// The precursor that `block` stands for.
pub open spec fn precursor_view(block: TextBlockPrecursor) -> Precursor
    decreases block,
{
    match block {
        TextBlockPrecursor::Header { level, text } => Precursor::Header {
            level: level as int,
            text: encode_utf8(text@),
        },
        TextBlockPrecursor::CodeBlock { text } => Precursor::CodeBlock { text: encode_utf8(text@) },
        TextBlockPrecursor::MathBlock { text } => Precursor::MathBlock { text: encode_utf8(text@) },
        TextBlockPrecursor::UnorderedList { items } => Precursor::UnorderedList {
            items: precursors_view(items@),
        },
        TextBlockPrecursor::OrderedList { items } => Precursor::OrderedList {
            items: precursors_view(items@),
        },
        TextBlockPrecursor::BlockQuote { inner } => Precursor::BlockQuote {
            inner: precursors_view(inner@),
        },
        TextBlockPrecursor::Image { url, alt } => Precursor::Image {
            url: encode_utf8(url@),
            alt: encode_utf8(alt@),
        },
        TextBlockPrecursor::SpacelessBreak => Precursor::SpacelessBreak,
        TextBlockPrecursor::VerticalSpace => Precursor::VerticalSpace,
        TextBlockPrecursor::HorizontalRule => Precursor::HorizontalRule,
        TextBlockPrecursor::Paragraph { text } => Precursor::Paragraph { text: encode_utf8(text@) },
    }
}

/// The precursors that `blocks` stand for, in order.
pub open spec fn precursors_view(blocks: Seq<TextBlockPrecursor>) -> Seq<Precursor>
    decreases blocks,
{
    Seq::new(
        blocks.len(),
        |i: int|
            if 0 <= i < blocks.len() {
                precursor_view(blocks[i])
            } else {
                Precursor::SpacelessBreak
            },
    )
}

impl View for TextBlockPrecursor {
    type V = Precursor;

    open spec fn view(&self) -> Precursor {
        precursor_view(*self)
    }
}

/// Appending precursor lists appends what they stand for.
pub proof fn lemma_precursors_view_add(left: Seq<TextBlockPrecursor>, right: Seq<TextBlockPrecursor>)
    ensures
        precursors_view(left + right) == precursors_view(left) + precursors_view(right),
{
    assert(precursors_view(left + right) =~= precursors_view(left) + precursors_view(right));
}

/// Appending one precursor appends what it stands for.
pub proof fn lemma_precursors_view_push(blocks: Seq<TextBlockPrecursor>, last: TextBlockPrecursor)
    ensures
        precursors_view(blocks.push(last)) == precursors_view(blocks).push(precursor_view(last)),
{
    assert(precursors_view(blocks.push(last)) =~= precursors_view(blocks).push(
        precursor_view(last),
    ));
}

/// How many of `byte` stand in a row at the start of `bytes`, counted up to
/// `limit`.
fn count_run(bytes: &[u8], byte: u8, limit: usize) -> (count: usize)
    ensures
        count <= limit,
        count <= bytes.len(),
        count < limit ==> count == run_length(bytes@, byte, 0),
        count == limit ==> run_length(bytes@, byte, 0) >= limit,
{
    let mut count: usize = 0;
    while count < limit && count < bytes.len() && bytes[count as usize] == byte
        invariant
            count <= limit,
            count <= bytes.len(),
            run_length(bytes@, byte, 0) == count + run_length(bytes@, byte, count as int),
        decreases bytes.len() - count,
    {
        count = count + 1;
    }
    count
}

/// The level of the header that `text` begins with.
fn header_mark(text: &str) -> (level: Option<u8>)
    ensures
        match level {
            Some(level) => header_level(text.spec_bytes()) == Some(level as int),
            None => header_level(text.spec_bytes()).is_none(),
        },
{
    let bytes = text.as_bytes();
    let hashes = count_run(bytes, 0x23, 7);
    if 1 <= hashes && hashes <= 6 && hashes < bytes.len() && bytes[hashes] == 0x20 {
        Some(hashes as u8)
    } else {
        None
    }
}

/// What stands after the line that `text` begins with.
fn skip_line<'a>(text: &'a str) -> (rest: &'a str)
    ensures
        rest.spec_bytes() == after_line(text.spec_bytes()),
{
    split_or_end(text, "\n").1
}

/// The inside of the fenced block that `text` begins with, and what follows
/// the closing fence.
fn fenced_parts<'a>(text: &'a str, fence: &str) -> (parts: Option<(&'a str, &'a str)>)
    ensures
        match parts {
            Some((inside, rest)) => fenced(text.spec_bytes(), fence.spec_bytes()) == Some(
                (inside.spec_bytes(), rest.spec_bytes()),
            ),
            None => fenced(text.spec_bytes(), fence.spec_bytes()).is_none(),
        },
{
    if starts_with(text, fence) {
        proof {
            lemma_str_is_valid(text);
            lemma_str_is_valid(fence);
            lemma_prefix_ends_on_boundary(text.spec_bytes(), fence.spec_bytes());
        }
        split(trim_start(skip(text, length(fence))), fence)
    } else {
        None
    }
}

/// The body of the list item that `text` begins with, and what follows the
/// item.
fn list_item<'a>(grammar: &Grammar, text: &'a str, ordered: bool) -> (parts: Option<
    (&'a str, &'a str),
>)
    ensures
        match parts {
            Some((body, rest)) => item_and_rest(text.spec_bytes(), ordered) == Some(
                (body.spec_bytes(), rest.spec_bytes()),
            ),
            None => item_and_rest(text.spec_bytes(), ordered).is_none(),
        },
{
    if length(text) == 0 {
        return None;
    }
    let rule = if ordered {
        Rule::Ordered
    } else {
        Rule::Unordered
    };
    match grammar.find_leading(rule, text) {
        Some(spans) => {
            if spans.len() < 2 {
                return None;
            }
            match (spans[0], spans[1]) {
                (Some((_, end)), Some((from, to))) => {
                    let level = count_indent(text).saturating_add(to - from);
                    let (scope, rest) = split_scope(text, level, false);
                    proof {
                        lemma_str_is_valid(scope);
                        lemma_scope_bounds(text.spec_bytes(), level as int, 0, false);
                        if end < scope.spec_bytes().len() {
                            assert(scope.spec_bytes()[end as int] == text.spec_bytes()[end as int]);
                        }
                    }
                    let body = if end <= length(scope) {
                        skip(scope, end)
                    } else {
                        let nothing = skip(scope, length(scope));
                        assert(nothing.spec_bytes() =~= Seq::<u8>::empty());
                        nothing
                    };
                    Some((body, rest))
                },
                _ => None,
            }
        },
        None => None,
    }
}

/// How far the quoted line reaches that `text` begins with, and what it
/// quotes.
fn quoted_line<'a>(grammar: &Grammar, text: &'a str) -> (found: Option<(usize, &'a str)>)
    ensures
        match found {
            Some((end, line)) => quote_line(text.spec_bytes()) == Some(
                (end as int, line.spec_bytes()),
            ) && 0 < end <= text.spec_bytes().len() && boundary(text.spec_bytes(), end as int),
            None => quote_line(text.spec_bytes()).is_none(),
        },
{
    match grammar.find_leading(Rule::Quote, text) {
        Some(spans) => {
            if spans.len() < 2 {
                return None;
            }
            match (spans[0], spans[1]) {
                (Some((_, end)), Some((from, to))) => {
                    if 1 <= from && to <= end {
                        Some((end, slice(text, from, to)))
                    } else {
                        None
                    }
                },
                _ => None,
            }
        },
        None => None,
    }
}

/// How far the image reaches that `text` begins with, its alternative text
/// and its address.
fn image<'a>(grammar: &Grammar, text: &'a str) -> (found: Option<(usize, &'a str, &'a str)>)
    ensures
        match found {
            Some((end, alt, url)) => image_parts(text.spec_bytes()) == Some(
                (end as int, alt.spec_bytes(), url.spec_bytes()),
            ) && 0 < end <= text.spec_bytes().len() && boundary(text.spec_bytes(), end as int),
            None => image_parts(text.spec_bytes()).is_none(),
        },
{
    match grammar.find_leading(Rule::Image, text) {
        Some(spans) => {
            if spans.len() < 3 {
                return None;
            }
            match (spans[0], spans[1], spans[2]) {
                (Some((_, end)), Some((alt_from, alt_to)), Some((url_from, url_to))) => Some(
                    (end, slice(text, alt_from, alt_to), slice(text, url_from, url_to)),
                ),
                _ => None,
            }
        },
        None => None,
    }
}

/// The blocks of the list items that `text` begins with, and what follows
/// the items.
fn list<'a>(grammar: &Grammar, text: &'a str, ordered: bool) -> (found: (
    Vec<TextBlockPrecursor>,
    &'a str,
))
    requires
        item_and_rest(text.spec_bytes(), ordered) is Some,
    ensures
        precursors_view(found.0@) == list_items(text.spec_bytes(), ordered),
        found.1.spec_bytes() == list_rest(text.spec_bytes(), ordered),
    decreases text.spec_bytes().len(), 0int,
{
    let mut items: Vec<TextBlockPrecursor> = Vec::new();
    let mut rest = text;
    assert(precursors_view(items@) + list_items(rest.spec_bytes(), ordered) =~= list_items(
        text.spec_bytes(),
        ordered,
    ));
    loop
        invariant
            rest.spec_bytes().len() <= text.spec_bytes().len(),
            precursors_view(items@) + list_items(rest.spec_bytes(), ordered) == list_items(
                text.spec_bytes(),
                ordered,
            ),
            list_rest(rest.spec_bytes(), ordered) == list_rest(text.spec_bytes(), ordered),
        decreases rest.spec_bytes().len(),
    {
        proof {
            lemma_item_and_rest(rest.spec_bytes(), ordered);
        }
        match list_item(grammar, rest, ordered) {
            Some((body, after)) => {
                let ghost done = precursors_view(items@);
                proof {
                    lemma_trimmed_lengths(body.spec_bytes());
                }
                let mut blocks = scan_blocks(grammar, trim(body));
                proof {
                    lemma_precursors_view_add(items@, blocks@);
                }
                items.append(&mut blocks);
                assert(precursors_view(items@) + list_items(after.spec_bytes(), ordered) =~= done
                    + list_items(rest.spec_bytes(), ordered));
                rest = after;
            },
            None => {
                assert(precursors_view(items@) + Seq::<Precursor>::empty() =~= precursors_view(
                    items@,
                ));
                return (items, rest);
            },
        }
    }
}

/// What the quoted lines quote that `text` begins with, each followed by a
/// line feed, and what follows the lines.
fn quote<'a>(grammar: &Grammar, text: &'a str) -> (found: (String, &'a str))
    ensures
        encode_utf8(found.0@) == quote_contents(text.spec_bytes()),
        found.1.spec_bytes() == quote_rest(text.spec_bytes()),
{
    let mut contents = String::new();
    let mut rest = text;
    assert(encode_utf8(contents@) + quote_contents(rest.spec_bytes()) =~= quote_contents(
        text.spec_bytes(),
    ));
    loop
        invariant
            encode_utf8(contents@) + quote_contents(rest.spec_bytes()) == quote_contents(
                text.spec_bytes(),
            ),
            quote_rest(rest.spec_bytes()) == quote_rest(text.spec_bytes()),
        decreases rest.spec_bytes().len(),
    {
        if length(rest) == 0 {
            assert(encode_utf8(contents@) + Seq::<u8>::empty() =~= encode_utf8(contents@));
            return (contents, rest);
        }
        match quoted_line(grammar, rest) {
            Some((end, line)) => {
                let ghost done = encode_utf8(contents@);
                proof {
                    lemma_encode_joined(contents@, line@);
                    lemma_encode_joined(contents@ + line@, "\n"@);
                }
                contents.append(line);
                contents.append("\n");
                let after = skip(rest, end);
                assert(encode_utf8(contents@) + quote_contents(after.spec_bytes()) =~= done
                    + quote_contents(rest.spec_bytes()));
                rest = after;
            },
            None => {
                assert(encode_utf8(contents@) + Seq::<u8>::empty() =~= encode_utf8(contents@));
                return (contents, rest);
            },
        }
    }
}

/// `blocks` with one more line of paragraph text.
fn push_paragraph(blocks: &mut Vec<TextBlockPrecursor>, line: &str)
    ensures
        precursors_view(final(blocks)@) == with_paragraph(
            precursors_view(old(blocks)@),
            line.spec_bytes(),
        ),
{
    let ghost before = precursors_view(blocks@);
    match blocks.pop() {
        Some(TextBlockPrecursor::Paragraph { text }) => {
            let ghost kept = blocks@;
            let mut text = text;
            proof {
                lemma_encode_joined(text@, " "@);
                lemma_encode_joined(text@ + " "@, line@);
            }
            text.append(" ");
            text.append(line);
            let merged = TextBlockPrecursor::Paragraph { text };
            proof {
                lemma_precursors_view_push(kept, merged);
                assert(precursors_view(kept) =~= before.drop_last());
            }
            blocks.push(merged);
        },
        Some(other) => {
            let ghost kept = blocks@;
            proof {
                lemma_precursors_view_push(kept, other);
                assert(kept.push(other) =~= old(blocks)@);
            }
            blocks.push(other);
            let paragraph = TextBlockPrecursor::Paragraph { text: owned(line) };
            proof {
                lemma_precursors_view_push(blocks@, paragraph);
            }
            blocks.push(paragraph);
        },
        None => {
            let paragraph = TextBlockPrecursor::Paragraph { text: owned(line) };
            proof {
                lemma_precursors_view_push(blocks@, paragraph);
            }
            blocks.push(paragraph);
        },
    }
}

/// Takes the header that `text` begins with, if it begins with one.
fn take_header<'a>(text: &'a str, blocks: &mut Vec<TextBlockPrecursor>) -> (rest: Option<&'a str>)
    ensures
        match rest {
            Some(rest) => {
                let level = header_level(text.spec_bytes()).unwrap();
                let parts = split_or_rest(text.spec_bytes().skip(level + 1), lit("\n"));
                &&& header_level(text.spec_bytes()) is Some
                &&& rest.spec_bytes() == parts.1
                &&& precursors_view(final(blocks)@) == precursors_view(old(blocks)@).push(
                    Precursor::Header { level, text: trimmed_start(parts.0) },
                )
            },
            None => header_level(text.spec_bytes()) is None && final(blocks)@ == old(blocks)@,
        },
{
    match header_mark(text) {
        Some(level) => {
            proof {
                lemma_str_is_valid(text);
                lemma_run_length(text.spec_bytes(), 0x23, 0);
                lemma_ascii_boundaries(text.spec_bytes(), level as int);
            }
            let (title, after) = split_or_end(skip(text, level as usize + 1), "\n");
            let block = TextBlockPrecursor::Header { level, text: owned(trim_start(title)) };
            proof {
                lemma_precursors_view_push(blocks@, block);
            }
            blocks.push(block);
            Some(after)
        },
        None => None,
    }
}

/// Takes the fenced block that `text` begins with, if it begins with one:
/// a formula where `formula` is set, code where not.
fn take_fenced<'a>(text: &'a str, formula: bool, blocks: &mut Vec<TextBlockPrecursor>) -> (rest:
    Option<&'a str>)
    ensures
        match rest {
            Some(rest) => {
                let fence = if formula {
                    lit("$$")
                } else {
                    lit("```")
                };
                let parts = fenced(text.spec_bytes(), fence).unwrap();
                &&& fenced(text.spec_bytes(), fence) is Some
                &&& rest.spec_bytes() == after_line(parts.1)
                &&& precursors_view(final(blocks)@) == precursors_view(old(blocks)@).push(
                    if formula {
                        Precursor::MathBlock { text: trimmed(parts.0) }
                    } else {
                        Precursor::CodeBlock { text: trimmed(parts.0) }
                    },
                )
            },
            None => fenced(
                text.spec_bytes(),
                if formula {
                    lit("$$")
                } else {
                    lit("```")
                },
            ) is None && final(blocks)@ == old(blocks)@,
        },
{
    let found = if formula {
        fenced_parts(text, "$$")
    } else {
        fenced_parts(text, "```")
    };
    match found {
        Some((inside, after)) => {
            let block = if formula {
                TextBlockPrecursor::MathBlock { text: owned(trim(inside)) }
            } else {
                TextBlockPrecursor::CodeBlock { text: owned(trim(inside)) }
            };
            proof {
                lemma_precursors_view_push(blocks@, block);
            }
            blocks.push(block);
            Some(skip_line(after))
        },
        None => None,
    }
}

/// Takes the rule that `text` begins with, if it begins with one.
fn take_rule<'a>(text: &'a str, blocks: &mut Vec<TextBlockPrecursor>) -> (rest: Option<&'a str>)
    ensures
        match rest {
            Some(rest) => {
                &&& run_length(text.spec_bytes(), 0x2d, 0) >= 3
                &&& rest.spec_bytes() == after_line(
                    text.spec_bytes().skip(run_length(text.spec_bytes(), 0x2d, 0) as int),
                )
                &&& precursors_view(final(blocks)@) == precursors_view(old(blocks)@).push(
                    Precursor::HorizontalRule,
                )
            },
            None => run_length(text.spec_bytes(), 0x2d, 0) < 3 && final(blocks)@ == old(blocks)@,
        },
{
    let dashes = count_run(text.as_bytes(), 0x2d, length(text));
    if dashes >= 3 {
        proof {
            lemma_str_is_valid(text);
            lemma_run_length(text.spec_bytes(), 0x2d, 0);
            lemma_ascii_boundaries(text.spec_bytes(), dashes - 1);
            lemma_precursors_view_push(blocks@, TextBlockPrecursor::HorizontalRule);
        }
        blocks.push(TextBlockPrecursor::HorizontalRule);
        Some(skip_line(skip(text, dashes)))
    } else {
        proof {
            lemma_run_length(text.spec_bytes(), 0x2d, 0);
        }
        None
    }
}

/// Takes the list that `text` begins with, if it begins with one.
fn take_list<'a>(
    grammar: &Grammar,
    text: &'a str,
    ordered: bool,
    blocks: &mut Vec<TextBlockPrecursor>,
) -> (rest: Option<&'a str>)
    ensures
        match rest {
            Some(rest) => {
                &&& item_and_rest(text.spec_bytes(), ordered) is Some
                &&& rest.spec_bytes() == list_rest(text.spec_bytes(), ordered)
                &&& precursors_view(final(blocks)@) == precursors_view(old(blocks)@).push(
                    if ordered {
                        Precursor::OrderedList { items: list_items(text.spec_bytes(), ordered) }
                    } else {
                        Precursor::UnorderedList { items: list_items(text.spec_bytes(), ordered) }
                    },
                )
            },
            None => item_and_rest(text.spec_bytes(), ordered) is None && final(blocks)@ == old(
                blocks,
            )@,
        },
    decreases text.spec_bytes().len(), 1int,
{
    if list_item(grammar, text, ordered).is_some() {
        let (items, after) = list(grammar, text, ordered);
        let block = if ordered {
            TextBlockPrecursor::OrderedList { items }
        } else {
            TextBlockPrecursor::UnorderedList { items }
        };
        proof {
            lemma_precursors_view_push(blocks@, block);
        }
        blocks.push(block);
        Some(after)
    } else {
        None
    }
}

/// Takes the quote that `text` begins with, if it begins with one.
fn take_quote<'a>(grammar: &Grammar, text: &'a str, blocks: &mut Vec<TextBlockPrecursor>) -> (rest:
    Option<&'a str>)
    requires
        text.spec_bytes().len() > 0,
    ensures
        match rest {
            Some(rest) => {
                &&& quote_line(text.spec_bytes()) is Some
                &&& rest.spec_bytes() == quote_rest(text.spec_bytes())
                &&& precursors_view(final(blocks)@) == precursors_view(old(blocks)@).push(
                    Precursor::BlockQuote {
                        inner: scan(trimmed(quote_contents(text.spec_bytes())), Seq::empty()),
                    },
                )
            },
            None => quote_line(text.spec_bytes()) is None && final(blocks)@ == old(blocks)@,
        },
    decreases text.spec_bytes().len(), 1int,
{
    if quoted_line(grammar, text).is_some() {
        let (contents, after) = quote(grammar, text);
        proof {
            lemma_scan_step(text.spec_bytes());
        }
        let inner = scan_blocks(grammar, trim(contents.as_str()));
        let block = TextBlockPrecursor::BlockQuote { inner };
        proof {
            lemma_precursors_view_push(blocks@, block);
        }
        blocks.push(block);
        Some(after)
    } else {
        None
    }
}

/// Takes the image that `text` begins with, if it begins with one.
fn take_image<'a>(grammar: &Grammar, text: &'a str, blocks: &mut Vec<TextBlockPrecursor>) -> (rest:
    Option<&'a str>)
    ensures
        match rest {
            Some(rest) => {
                let parts = image_parts(text.spec_bytes()).unwrap();
                &&& image_parts(text.spec_bytes()) is Some
                &&& rest.spec_bytes() == text.spec_bytes().skip(parts.0)
                &&& precursors_view(final(blocks)@) == precursors_view(old(blocks)@).push(
                    Precursor::Image { url: parts.2, alt: parts.1 },
                )
            },
            None => image_parts(text.spec_bytes()) is None && final(blocks)@ == old(blocks)@,
        },
{
    match image(grammar, text) {
        Some((reach, alt, url)) => {
            let block = TextBlockPrecursor::Image { url: owned(url), alt: owned(alt) };
            proof {
                lemma_precursors_view_push(blocks@, block);
            }
            blocks.push(block);
            Some(skip(text, reach))
        },
        None => None,
    }
}

/// Takes the line feeds that `text` begins with, if it begins with one.
fn take_blank<'a>(text: &'a str, blocks: &mut Vec<TextBlockPrecursor>) -> (rest: Option<&'a str>)
    requires
        text.spec_bytes().len() > 0,
    ensures
        match rest {
            Some(rest) => {
                let feeds = run_length(text.spec_bytes(), 0x0a, 0) as int;
                &&& text.spec_bytes()[0] == 0x0a
                &&& rest.spec_bytes() == text.spec_bytes().skip(feeds)
                &&& precursors_view(final(blocks)@) == precursors_view(old(blocks)@).push(
                    Precursor::SpacelessBreak,
                ) + vertical_spaces(feeds - 1)
            },
            None => text.spec_bytes()[0] != 0x0a && final(blocks)@ == old(blocks)@,
        },
{
    if text.as_bytes()[0] == 0x0a {
        let feeds = count_run(text.as_bytes(), 0x0a, length(text));
        proof {
            lemma_str_is_valid(text);
            lemma_run_length(text.spec_bytes(), 0x0a, 0);
            lemma_ascii_boundaries(text.spec_bytes(), feeds - 1);
        }
        push_blank(blocks, feeds);
        Some(skip(text, feeds))
    } else {
        None
    }
}

/// Cuts the first block from `text`, which is not empty, and puts it
/// behind `blocks`; returns what is left of the text.
fn take_block<'a>(grammar: &Grammar, text: &'a str, blocks: &mut Vec<TextBlockPrecursor>) -> (rest:
    &'a str)
    requires
        text.spec_bytes().len() > 0,
    ensures
        rest.spec_bytes() == rest_after_block(text.spec_bytes()),
        precursors_view(final(blocks)@) == with_block(
            text.spec_bytes(),
            precursors_view(old(blocks)@),
        ),
    decreases text.spec_bytes().len(), 2int,
{
    if let Some(rest) = take_header(text, blocks) {
        return rest;
    }
    if let Some(rest) = take_fenced(text, false, blocks) {
        return rest;
    }
    if let Some(rest) = take_fenced(text, true, blocks) {
        return rest;
    }
    if let Some(rest) = take_rule(text, blocks) {
        return rest;
    }
    if let Some(rest) = take_list(grammar, text, false, blocks) {
        return rest;
    }
    if let Some(rest) = take_list(grammar, text, true, blocks) {
        return rest;
    }
    if let Some(rest) = take_quote(grammar, text, blocks) {
        return rest;
    }
    if let Some(rest) = take_image(grammar, text, blocks) {
        return rest;
    }
    if let Some(rest) = take_blank(text, blocks) {
        return rest;
    }
    let (line, after) = split_or_end(text, "\n");
    push_paragraph(blocks, line);
    after
}

/// `blocks` with the blocks of a run of `feeds` line feeds.
fn push_blank(blocks: &mut Vec<TextBlockPrecursor>, feeds: usize)
    requires
        feeds >= 1,
    ensures
        precursors_view(final(blocks)@) == precursors_view(old(blocks)@).push(
            Precursor::SpacelessBreak,
        ) + vertical_spaces(feeds - 1),
{
    let ghost done = precursors_view(blocks@);
    proof {
        lemma_precursors_view_push(blocks@, TextBlockPrecursor::SpacelessBreak);
    }
    blocks.push(TextBlockPrecursor::SpacelessBreak);
    let mut spaces: usize = 1;
    assert(precursors_view(blocks@) =~= done.push(Precursor::SpacelessBreak) + vertical_spaces(0));
    while spaces < feeds
        invariant
            1 <= spaces <= feeds,
            precursors_view(blocks@) == done.push(Precursor::SpacelessBreak) + vertical_spaces(
                spaces - 1,
            ),
        decreases feeds - spaces,
    {
        proof {
            lemma_precursors_view_push(blocks@, TextBlockPrecursor::VerticalSpace);
        }
        blocks.push(TextBlockPrecursor::VerticalSpace);
        spaces = spaces + 1;
        assert(precursors_view(blocks@) =~= done.push(Precursor::SpacelessBreak) + vertical_spaces(
            spaces - 1,
        ));
    }
}

/// The blocks of `text`, which does not begin with white space.
fn scan_blocks(grammar: &Grammar, text: &str) -> (blocks: Vec<TextBlockPrecursor>)
    ensures
        precursors_view(blocks@) == scan(text.spec_bytes(), Seq::empty()),
    decreases text.spec_bytes().len(), 3int,
{
    let mut blocks: Vec<TextBlockPrecursor> = Vec::new();
    let mut rest = text;
    assert(precursors_view(blocks@) =~= Seq::<Precursor>::empty());
    while length(rest) > 0
        invariant
            rest.spec_bytes().len() <= text.spec_bytes().len(),
            scan(rest.spec_bytes(), precursors_view(blocks@)) == scan(
                text.spec_bytes(),
                Seq::empty(),
            ),
        decreases rest.spec_bytes().len(),
    {
        proof {
            lemma_scan_step(rest.spec_bytes());
        }
        rest = take_block(grammar, rest, &mut blocks);
    }
    blocks
}

/// Cuts `text` into its blocks, their own text not yet chunked: the first
/// pass of the block parser.
pub fn parse_text_block_precursors(grammar: &Grammar, text: &str) -> (blocks: Vec<
    TextBlockPrecursor,
>)
    ensures
        precursors_view(blocks@) == precursors(text.spec_bytes()),
{
    scan_blocks(grammar, trim(text))
}

// ------------------------------------------------------------ second pass

/// The block that `precursor` turns into, its text chunked and its formula
/// rendered; none for the break between two paragraphs.
pub open spec fn converted(precursor: Precursor) -> Seq<Block>
    decreases precursor, 0int,
{
    match precursor {
        Precursor::Paragraph { text } => seq![Block::Paragraph { chunks: chunked(text) }],
        Precursor::Header { level, text } => seq![Block::Header { level, chunks: chunked(text) }],
        Precursor::CodeBlock { text } => seq![Block::CodeBlock { text: spelled(text) }],
        Precursor::MathBlock { text } => seq![
            Block::MathBlock { text: katex_markup(spelled(text), true) },
        ],
        Precursor::UnorderedList { items } => seq![
            Block::UnorderedList { items: converted_first(items, items.len() as int) },
        ],
        Precursor::OrderedList { items } => seq![
            Block::OrderedList { items: converted_first(items, items.len() as int) },
        ],
        Precursor::BlockQuote { inner } => seq![
            Block::BlockQuote { inner: converted_first(inner, inner.len() as int) },
        ],
        Precursor::Image { url, alt } => seq![
            Block::Image { url: spelled(url), alt: spelled(alt) },
        ],
        Precursor::VerticalSpace => seq![Block::VerticalSpace],
        Precursor::HorizontalRule => seq![Block::HorizontalRule],
        Precursor::SpacelessBreak => Seq::empty(),
    }
}

/// The blocks that the first `count` of `precursors` turn into.
pub open spec fn converted_first(precursors: Seq<Precursor>, count: int) -> Seq<Block>
    decreases precursors, count,
{
    if count <= 0 || count > precursors.len() {
        Seq::empty()
    } else {
        converted_first(precursors, count - 1) + converted(precursors[count - 1])
    }
}

/// The blocks that `precursors` turn into.
pub open spec fn converted_all(precursors: Seq<Precursor>) -> Seq<Block> {
    converted_first(precursors, precursors.len() as int)
}

/// The blocks of the text of a text box.
pub open spec fn blocks_of(text: Seq<u8>) -> Seq<Block> {
    converted_all(precursors(text))
}

/// Whether a formula stands in `block`, at any depth.
pub open spec fn block_has_math(block: Block) -> bool
    decreases block,
{
    match block {
        Block::MathBlock { .. } => true,
        Block::Paragraph { chunks } => chunks_have_math(chunks),
        Block::Header { chunks, .. } => chunks_have_math(chunks),
        Block::UnorderedList { items } => blocks_have_math(items),
        Block::OrderedList { items } => blocks_have_math(items),
        Block::BlockQuote { inner } => blocks_have_math(inner),
        _ => false,
    }
}

/// Whether a formula stands in one of `blocks`, at any depth.
pub open spec fn blocks_have_math(blocks: Seq<Block>) -> bool
    decreases blocks,
{
    exists|i: int| 0 <= i < blocks.len() && block_has_math(#[trigger] blocks[i])
}

/// A formula stands in a joined list exactly if it stands in one of the two.
pub proof fn lemma_block_math_in_joined(left: Seq<Block>, right: Seq<Block>)
    ensures
        blocks_have_math(left + right) <==> blocks_have_math(left) || blocks_have_math(right),
{
    let joined = left + right;
    if blocks_have_math(left) {
        let i = choose|i: int| 0 <= i < left.len() && block_has_math(#[trigger] left[i]);
        assert(joined[i] == left[i]);
    }
    if blocks_have_math(right) {
        let i = choose|i: int| 0 <= i < right.len() && block_has_math(#[trigger] right[i]);
        assert(joined[left.len() + i] == right[i]);
    }
    if blocks_have_math(joined) {
        let i = choose|i: int| 0 <= i < joined.len() && block_has_math(#[trigger] joined[i]);
        if i < left.len() {
            assert(joined[i] == left[i]);
        } else {
            assert(joined[i] == right[i - left.len()]);
        }
    }
}

/// A formula in what one precursor turns into is a formula in what they all
/// turn into.
pub proof fn lemma_math_in_converted(precursors: Seq<Precursor>, count: int, at: int)
    requires
        0 <= at < count <= precursors.len(),
        blocks_have_math(converted(precursors[at])),
    ensures
        blocks_have_math(converted_first(precursors, count)),
    decreases count,
{
    let before = converted_first(precursors, count - 1);
    let last = converted(precursors[count - 1]);
    if at < count - 1 {
        lemma_math_in_converted(precursors, count - 1, at);
    }
    lemma_block_math_in_joined(before, last);
}

/// Turns one precursor into its block. Fails only where a formula does not
/// render.
fn convert_precursor(grammar: &Grammar, precursor: &TextBlockPrecursor) -> (result: Result<
    Option<TextBlock>,
    ParseError,
>)
    ensures
        match result {
            Ok(Some(block)) => converted(precursor_view(*precursor)) == seq![block_view(block)],
            Ok(None) => converted(precursor_view(*precursor)) == Seq::<Block>::empty(),
            Err(error) => error == ParseError::MathRenderFailure && blocks_have_math(
                converted(precursor_view(*precursor)),
            ),
        },
    decreases *precursor, 0int,
{
    let ghost model = converted(precursor_view(*precursor));
    match precursor {
        TextBlockPrecursor::Paragraph { text } => {
            match chunk_text(grammar, text.as_str()) {
                Ok(chunks) => Ok(Some(TextBlock::Paragraph { chunks })),
                Err(error) => {
                    assert(block_has_math(model[0]));
                    Err(error)
                },
            }
        },
        TextBlockPrecursor::Header { level, text } => {
            match chunk_text(grammar, text.as_str()) {
                Ok(chunks) => Ok(Some(TextBlock::Header { level: *level, chunks })),
                Err(error) => {
                    assert(block_has_math(model[0]));
                    Err(error)
                },
            }
        },
        TextBlockPrecursor::CodeBlock { text } => {
            proof {
                vstd::utf8::encode_utf8_decode_utf8(text@);
            }
            Ok(Some(TextBlock::CodeBlock { text: text.clone() }))
        },
        TextBlockPrecursor::MathBlock { text } => {
            proof {
                vstd::utf8::encode_utf8_decode_utf8(text@);
            }
            match render(text.as_str(), true) {
                Ok(markup) => Ok(Some(TextBlock::MathBlock { text: markup })),
                Err(error) => {
                    assert(block_has_math(model[0]));
                    Err(error)
                },
            }
        },
        TextBlockPrecursor::UnorderedList { items } => {
            match convert_precursors(grammar, items) {
                Ok(items) => Ok(Some(TextBlock::UnorderedList { items })),
                Err(error) => {
                    assert(block_has_math(model[0]));
                    Err(error)
                },
            }
        },
        TextBlockPrecursor::OrderedList { items } => {
            match convert_precursors(grammar, items) {
                Ok(items) => Ok(Some(TextBlock::OrderedList { items })),
                Err(error) => {
                    assert(block_has_math(model[0]));
                    Err(error)
                },
            }
        },
        TextBlockPrecursor::BlockQuote { inner } => {
            match convert_precursors(grammar, inner) {
                Ok(inner) => Ok(Some(TextBlock::BlockQuote { inner })),
                Err(error) => {
                    assert(block_has_math(model[0]));
                    Err(error)
                },
            }
        },
        TextBlockPrecursor::Image { url, alt } => {
            proof {
                vstd::utf8::encode_utf8_decode_utf8(url@);
                vstd::utf8::encode_utf8_decode_utf8(alt@);
            }
            Ok(Some(TextBlock::Image { url: url.clone(), alt: alt.clone() }))
        },
        TextBlockPrecursor::VerticalSpace => Ok(Some(TextBlock::VerticalSpace)),
        TextBlockPrecursor::HorizontalRule => Ok(Some(TextBlock::HorizontalRule)),
        TextBlockPrecursor::SpacelessBreak => Ok(None),
    }
}

/// Turns precursors into blocks: chunks their text and renders their
/// formulas. Fails only where a formula does not render.
pub fn convert_precursors(grammar: &Grammar, precursors: &Vec<TextBlockPrecursor>) -> (result:
    Result<Vec<TextBlock>, ParseError>)
    ensures
        match result {
            Ok(blocks) => blocks_view(blocks@) == converted_all(precursors_view(precursors@)),
            Err(error) => error == ParseError::MathRenderFailure && blocks_have_math(
                converted_all(precursors_view(precursors@)),
            ),
        },
    decreases *precursors, 1int,
{
    let ghost model = precursors_view(precursors@);
    let mut blocks: Vec<TextBlock> = Vec::new();
    let mut at: usize = 0;
    assert(blocks_view(blocks@) =~= converted_first(model, 0));
    while at < precursors.len()
        invariant
            model == precursors_view(precursors@),
            at <= precursors.len(),
            blocks_view(blocks@) == converted_first(model, at as int),
        decreases precursors.len() - at,
    {
        assert(model[at as int] == precursor_view(precursors@[at as int]));
        match convert_precursor(grammar, &precursors[at]) {
            Ok(Some(block)) => {
                proof {
                    lemma_blocks_view_push(blocks@, block);
                    assert(converted_first(model, at as int).push(block_view(block))
                        =~= converted_first(model, at as int) + seq![block_view(block)]);
                }
                blocks.push(block);
            },
            Ok(None) => {
                assert(converted_first(model, at as int) + Seq::<Block>::empty()
                    =~= converted_first(model, at as int));
            },
            Err(error) => {
                proof {
                    lemma_math_in_converted(model, model.len() as int, at as int);
                }
                return Err(error);
            },
        }
        at = at + 1;
    }
    Ok(blocks)
}

/// The blocks of the text of a text box. Fails only where a formula does
/// not render.
pub fn parse_text_blocks(grammar: &Grammar, text: &str) -> (result: Result<
    Vec<TextBlock>,
    ParseError,
>)
    ensures
        match result {
            Ok(blocks) => blocks_view(blocks@) == blocks_of(text.spec_bytes()),
            Err(error) => error == ParseError::MathRenderFailure && blocks_have_math(
                blocks_of(text.spec_bytes()),
            ),
        },
{
    let precursors = parse_text_block_precursors(grammar, text);
    convert_precursors(grammar, &precursors)
}

// ------------------------------------------------------------------- laws

/// No `$` stands in the text of `precursor`, at any depth, and it is no
/// formula.
pub open spec fn plain(precursor: Precursor) -> bool
    decreases precursor,
{
    match precursor {
        Precursor::Header { text, .. } => without(text, 0x24),
        Precursor::Paragraph { text } => without(text, 0x24),
        Precursor::MathBlock { .. } => false,
        Precursor::UnorderedList { items } => all_plain(items),
        Precursor::OrderedList { items } => all_plain(items),
        Precursor::BlockQuote { inner } => all_plain(inner),
        _ => true,
    }
}

/// Each of `precursors` is plain.
pub open spec fn all_plain(precursors: Seq<Precursor>) -> bool
    decreases precursors,
{
    forall|i: int| 0 <= i < precursors.len() ==> plain(#[trigger] precursors[i])
}

proof fn lemma_plain_converted(precursor: Precursor)
    requires
        plain(precursor),
    ensures
        !blocks_have_math(converted(precursor)),
    decreases precursor, 0int,
{
    let blocks = converted(precursor);
    match precursor {
        Precursor::Paragraph { text } => {
            crate::inline::lemma_no_dollar_no_formula(text);
        },
        Precursor::Header { text, .. } => {
            crate::inline::lemma_no_dollar_no_formula(text);
        },
        Precursor::UnorderedList { items } => {
            lemma_all_plain_converted(items, items.len() as int);
        },
        Precursor::OrderedList { items } => {
            lemma_all_plain_converted(items, items.len() as int);
        },
        Precursor::BlockQuote { inner } => {
            lemma_all_plain_converted(inner, inner.len() as int);
        },
        _ => {},
    }
    assert forall|i: int| 0 <= i < blocks.len() implies !block_has_math(#[trigger] blocks[i]) by {}
}

proof fn lemma_all_plain_converted(precursors: Seq<Precursor>, count: int)
    requires
        all_plain(precursors),
    ensures
        !blocks_have_math(converted_first(precursors, count)),
    decreases precursors, count,
{
    if count <= 0 || count > precursors.len() {
        assert forall|i: int| 0 <= i < converted_first(precursors, count).len() implies
            !block_has_math(#[trigger] converted_first(precursors, count)[i]) by {}
    } else {
        lemma_all_plain_converted(precursors, count - 1);
        lemma_plain_converted(precursors[count - 1]);
        lemma_block_math_in_joined(
            converted_first(precursors, count - 1),
            converted(precursors[count - 1]),
        );
    }
}

proof fn lemma_trimmed_without(text: Seq<u8>, byte: u8)
    requires
        without(text, byte),
    ensures
        without(trimmed_start(text), byte),
        without(trimmed(text), byte),
{
    crate::space::lemma_space_end_fits(text, 0);
    lemma_part_without(text, byte, crate::space::space_end(text, 0), text.len() as int);
    let inner = trimmed_start(text);
    crate::space::lemma_space_start_fits(inner, inner.len() as int);
    lemma_part_without(inner, byte, 0, crate::space::space_start(inner, inner.len() as int));
}

proof fn lemma_item_without(text: Seq<u8>, ordered: bool, byte: u8)
    requires
        without(text, byte),
    ensures
        item_and_rest(text, ordered) matches Some((body, rest)) ==> without(body, byte)
            && without(rest, byte),
{
    if text.len() > 0 {
        if let Some((end, width)) = marker(text, list_pattern(ordered)) {
            let level = item_level(text, width);
            lemma_scope_bounds(text, level, 0, false);
            let stop = crate::space::scope_end(text, level, 0, false);
            lemma_part_without(text, byte, 0, stop);
            lemma_part_without(text, byte, stop, text.len() as int);
            let scope = text.take(stop);
            if 0 <= end <= scope.len() {
                lemma_part_without(scope, byte, end, scope.len() as int);
            }
        }
    }
}

proof fn lemma_list_rest_without(text: Seq<u8>, ordered: bool, byte: u8)
    requires
        without(text, byte),
    ensures
        without(list_rest(text, ordered), byte),
    decreases text.len(),
{
    lemma_item_and_rest(text, ordered);
    lemma_item_without(text, ordered, byte);
    if let Some((body, rest)) = item_and_rest(text, ordered) {
        lemma_list_rest_without(rest, ordered, byte);
    }
}

proof fn lemma_quote_without(text: Seq<u8>, byte: u8)
    requires
        without(text, byte),
        byte != 0x0a,
    ensures
        without(quote_contents(text), byte),
        without(quote_rest(text), byte),
    decreases text.len(),
{
    lemma_block_literals();
    if text.len() > 0 {
        if let Some((end, line)) = quote_line(text) {
            let spans = leading_match(quote_pattern(), text).unwrap();
            assert(spans[0] is Some && spans[1] is Some);
            lemma_part_without(text, byte, spans[1].unwrap().0 as int, spans[1].unwrap().1 as int);
            lemma_part_without(text, byte, end, text.len() as int);
            lemma_quote_without(text.skip(end), byte);
            lemma_joined_without(line, lit("\n"), byte);
            lemma_joined_without(line + lit("\n"), quote_contents(text.skip(end)), byte);
        } else {
            assert(quote_contents(text) =~= Seq::<u8>::empty());
        }
    } else {
        assert(quote_contents(text) =~= Seq::<u8>::empty());
    }
}

proof fn lemma_pushed_plain(done: Seq<Precursor>, last: Precursor)
    requires
        all_plain(done),
        plain(last),
    ensures
        all_plain(done.push(last)),
{
    assert forall|i: int| 0 <= i < done.push(last).len() implies plain(
        #[trigger] done.push(last)[i],
    ) by {
        if i < done.len() {
            assert(done.push(last)[i] == done[i]);
        }
    }
}

proof fn lemma_joined_plain(left: Seq<Precursor>, right: Seq<Precursor>)
    requires
        all_plain(left),
        all_plain(right),
    ensures
        all_plain(left + right),
{
    assert forall|i: int| 0 <= i < (left + right).len() implies plain(
        #[trigger] (left + right)[i],
    ) by {
        if i < left.len() {
            assert((left + right)[i] == left[i]);
        } else {
            assert((left + right)[i] == right[i - left.len()]);
        }
    }
}

proof fn lemma_list_items_plain(text: Seq<u8>, ordered: bool)
    requires
        without(text, 0x24),
    ensures
        all_plain(list_items(text, ordered)),
    decreases text.len(), 0int,
{
    lemma_item_and_rest(text, ordered);
    lemma_item_without(text, ordered, 0x24);
    if let Some((body, rest)) = item_and_rest(text, ordered) {
        lemma_trimmed_lengths(body);
        lemma_trimmed_without(body, 0x24);
        lemma_scan_plain(trimmed(body), Seq::empty());
        lemma_list_items_plain(rest, ordered);
        lemma_joined_plain(scan(trimmed(body), Seq::empty()), list_items(rest, ordered));
    }
}

proof fn lemma_block_plain(text: Seq<u8>, done: Seq<Precursor>)
    requires
        text.len() > 0,
        without(text, 0x24),
        all_plain(done),
    ensures
        all_plain(with_block(text, done)),
        without(rest_after_block(text), 0x24),
    decreases text.len(), 1int,
{
    lemma_block_literals();
    lemma_scan_step(text);
    match block_rule(text) {
        BlockRule::Header => {
            let level = header_level(text).unwrap();
            lemma_part_without(text, 0x24, level + 1, text.len() as int);
            let tail = text.skip(level + 1);
            lemma_split_without(tail, lit("\n"), 0x24);
            let title = split_or_rest(tail, lit("\n")).0;
            lemma_trimmed_without(title, 0x24);
            lemma_pushed_plain(done, Precursor::Header { level, text: trimmed_start(title) });
        },
        BlockRule::Code => {
            let tail = text.skip(3);
            lemma_part_without(text, 0x24, 3, text.len() as int);
            lemma_trimmed_without(tail, 0x24);
            lemma_split_without(trimmed_start(tail), lit("```"), 0x24);
            let parts = fenced(text, lit("```")).unwrap();
            lemma_split_without(parts.1, lit("\n"), 0x24);
            lemma_pushed_plain(done, Precursor::CodeBlock { text: trimmed(parts.0) });
        },
        BlockRule::Math => {
            assert(text.subrange(0, 2)[0] == text[0]);
        },
        BlockRule::Rule => {
            lemma_run_length(text, 0x2d, 0);
            let dashes = run_length(text, 0x2d, 0) as int;
            lemma_part_without(text, 0x24, dashes, text.len() as int);
            lemma_split_without(text.skip(dashes), lit("\n"), 0x24);
            lemma_pushed_plain(done, Precursor::HorizontalRule);
        },
        BlockRule::Unordered => {
            lemma_list_items_plain(text, false);
            lemma_list_rest_without(text, false, 0x24);
            lemma_pushed_plain(done, Precursor::UnorderedList { items: list_items(text, false) });
        },
        BlockRule::Ordered => {
            lemma_list_items_plain(text, true);
            lemma_list_rest_without(text, true, 0x24);
            lemma_pushed_plain(done, Precursor::OrderedList { items: list_items(text, true) });
        },
        BlockRule::Quote => {
            lemma_quote_without(text, 0x24);
            let contents = quote_contents(text);
            lemma_trimmed_without(contents, 0x24);
            lemma_scan_plain(trimmed(contents), Seq::empty());
            lemma_pushed_plain(
                done,
                Precursor::BlockQuote { inner: scan(trimmed(contents), Seq::empty()) },
            );
        },
        BlockRule::Image => {
            let parts = image_parts(text).unwrap();
            lemma_part_without(text, 0x24, parts.0, text.len() as int);
            lemma_pushed_plain(done, Precursor::Image { url: parts.2, alt: parts.1 });
        },
        BlockRule::Blank => {
            lemma_run_length(text, 0x0a, 0);
            let feeds = run_length(text, 0x0a, 0) as int;
            lemma_part_without(text, 0x24, feeds, text.len() as int);
            lemma_pushed_plain(done, Precursor::SpacelessBreak);
            lemma_joined_plain(done.push(Precursor::SpacelessBreak), vertical_spaces(feeds - 1));
        },
        BlockRule::Paragraph => {
            lemma_split_without(text, lit("\n"), 0x24);
            let line = split_or_rest(text, lit("\n")).0;
            if done.len() > 0 && done.last() is Paragraph {
                let before = done.last()->Paragraph_text;
                assert(plain(done.last()));
                lemma_joined_without(before, lit(" "), 0x24);
                lemma_joined_without(before + lit(" "), line, 0x24);
                let merged = Precursor::Paragraph { text: before + lit(" ") + line };
                assert forall|i: int| 0 <= i < done.drop_last().len() implies plain(
                    #[trigger] done.drop_last()[i],
                ) by {
                    assert(done.drop_last()[i] == done[i]);
                }
                lemma_pushed_plain(done.drop_last(), merged);
            } else {
                lemma_pushed_plain(done, Precursor::Paragraph { text: line });
            }
        },
    }
}

proof fn lemma_scan_plain(text: Seq<u8>, done: Seq<Precursor>)
    requires
        without(text, 0x24),
        all_plain(done),
    ensures
        all_plain(scan(text, done)),
    decreases text.len(), 2int,
{
    if text.len() > 0 {
        lemma_scan_step(text);
        lemma_block_plain(text, done);
        lemma_scan_plain(rest_after_block(text), with_block(text, done));
    }
}

/// A text without `$` holds no formula: none of its blocks is one or holds
/// one, at any depth.
pub proof fn lemma_no_dollar_no_formula(text: Seq<u8>)
    requires
        without(text, 0x24),
    ensures
        !blocks_have_math(blocks_of(text)),
{
    lemma_trimmed_without(text, 0x24);
    lemma_scan_plain(trimmed(text), Seq::empty());
    lemma_all_plain_converted(precursors(text), precursors(text).len() as int);
}

} // verus!
