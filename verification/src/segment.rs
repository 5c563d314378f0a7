//! The first pass over a file: its lines, the header lines among them, and
//! the element that each header opens.

use vstd::prelude::*;
use vstd::string::StringSliceAdditionalSpecFns;
use vstd::utf8::{encode_utf8, is_ascii_chars_encode_utf8};

use crate::entries::{inserted, Entries};
use crate::number::{
    digits_end, digits_text, digits_value, is_digit, lemma_digits_end_at, lemma_digits_read_back,
    push_digits, push_str,
};
use crate::pattern::{header_pattern, matched, property_pattern, Grammar, Rule};
use crate::space::{
    lemma_ascii_boundaries, lemma_line_end, lemma_next_line_on_boundary, line_end, next_line,
};
use crate::block::lemma_block_literals;
use crate::text::{
    boundary, has_prefix, lemma_str_is_valid, lit, owned, skip, slice, starts_with, without,
};

verus! {

// ------------------------------------------------------------------ lines

/// Where the text of the line ends that begins at `from`: before its line
/// feed, and before the carriage return in front of that.
pub open spec fn line_stop(text: Seq<u8>, from: int) -> int {
    let end = line_end(text, from);
    if end < text.len() && from < end && text[end - 1] == 0x0d {
        end - 1
    } else {
        end
    }
}

/// The lines of `text` from `from` on, without their line ends. A text that
/// ends with a line end has no further, empty line behind it.
pub open spec fn lines_from(text: Seq<u8>, from: int) -> Seq<Seq<u8>>
    decreases text.len() - from,
{
    if from < 0 || from >= text.len() {
        Seq::empty()
    } else {
        proof {
            lemma_line_end(text, from);
        }
        seq![text.subrange(from, line_stop(text, from))] + lines_from(text, next_line(text, from))
    }
}

/// The lines of `text`.
pub open spec fn lines_of(text: Seq<u8>) -> Seq<Seq<u8>> {
    lines_from(text, 0)
}

/// The texts that `lines` stand for.
pub open spec fn lines_view(lines: Seq<&str>) -> Seq<Seq<u8>> {
    Seq::new(lines.len(), |i: int| lines[i].spec_bytes())
}

/// The lines of `text`, without their line ends.
pub fn lines<'a>(text: &'a str) -> (found: Vec<&'a str>)
    ensures
        lines_view(found@) == lines_of(text.spec_bytes()),
{
    let bytes = text.as_bytes();
    let mut found: Vec<&'a str> = Vec::new();
    let mut at: usize = 0;
    proof {
        lemma_str_is_valid(text);
    }
    assert(lines_view(found@) + lines_from(bytes@, 0) =~= lines_of(bytes@));
    while at < bytes.len()
        invariant
            bytes@ == text.spec_bytes(),
            vstd::utf8::valid_utf8(bytes@),
            at <= bytes.len(),
            boundary(bytes@, at as int),
            lines_view(found@) + lines_from(bytes@, at as int) == lines_of(bytes@),
        decreases bytes.len() - at,
    {
        let ghost done = lines_view(found@);
        let mut end = at;
        proof {
            lemma_line_end(bytes@, at as int);
            lemma_next_line_on_boundary(bytes@, at as int);
        }
        while end < bytes.len() && bytes[end] != 0x0a
            invariant
                at <= end <= bytes.len(),
                line_end(bytes@, at as int) == line_end(bytes@, end as int),
            decreases bytes.len() - end,
        {
            end = end + 1;
        }
        let stop = if end < bytes.len() && at < end && bytes[end - 1] == 0x0d {
            proof {
                lemma_ascii_boundaries(bytes@, end - 1);
            }
            end - 1
        } else {
            end
        };
        let line = slice(text, at, stop);
        found.push(line);
        at = if end < bytes.len() {
            end + 1
        } else {
            end
        };
        assert(lines_view(found@) =~= done.push(line.spec_bytes()));
        assert(lines_view(found@) + lines_from(bytes@, at as int) =~= done + (seq![
            line.spec_bytes(),
        ] + lines_from(bytes@, at as int)));
    }
    assert(lines_view(found@) + Seq::<Seq<u8>>::empty() =~= lines_view(found@));
    found
}

/// The lines from `from` up to, not including, `until`, each ended by a line
/// feed.
pub open spec fn joined_lines(lines: Seq<Seq<u8>>, from: int, until: int) -> Seq<u8>
    decreases until - from,
{
    if from < 0 || from >= until || from >= lines.len() {
        Seq::empty()
    } else {
        lines[from] + lit("\n") + joined_lines(lines, from + 1, until)
    }
}

/// The text of the element whose lines run from `startline` to `endline`,
/// both included: these lines, each ended by a line feed.
pub open spec fn body_of(lines: Seq<Seq<u8>>, startline: int, endline: int) -> Seq<u8> {
    joined_lines(lines, startline, endline + 1)
}

/// The text of the element whose lines run from `startline` to `endline`.
pub fn body(lines: &Vec<&str>, startline: usize, endline: usize) -> (text: String)
    ensures
        encode_utf8(text@) == body_of(lines_view(lines@), startline as int, endline as int),
{
    let ghost model = lines_view(lines@);
    let mut text = String::new();
    let mut at = startline;
    assert(encode_utf8(text@) =~= Seq::<u8>::empty());
    assert(encode_utf8(text@) + joined_lines(model, at as int, endline + 1) =~= body_of(
        model,
        startline as int,
        endline as int,
    ));
    while at <= endline && at < lines.len()
        invariant
            model == lines_view(lines@),
            encode_utf8(text@) + joined_lines(model, at as int, endline + 1) == body_of(
                model,
                startline as int,
                endline as int,
            ),
        decreases lines.len() - at,
    {
        let ghost done = encode_utf8(text@);
        push_str(&mut text, lines[at]);
        push_str(&mut text, "\n");
        assert(model[at as int] == lines@[at as int].spec_bytes());
        at = at + 1;
        assert(encode_utf8(text@) + joined_lines(model, at as int, endline + 1) =~= done
            + joined_lines(model, at - 1, endline + 1));
    }
    assert(encode_utf8(text@) + Seq::<u8>::empty() =~= encode_utf8(text@));
    text
}

// ---------------------------------------------------------------- headers

/// `byte`, in lower case where it is an ASCII capital.
pub open spec fn lowered_byte(byte: u8) -> u8 {
    if 0x41 <= byte <= 0x5a {
        (byte + 0x20) as u8
    } else {
        byte
    }
}

/// `text` with its ASCII capitals in lower case.
pub open spec fn lowered(text: Seq<u8>) -> Seq<u8> {
    Seq::new(text.len(), |i: int| lowered_byte(text[i]))
}

/// The lower case letter for the capital `byte`.
fn lower_letter(byte: u8) -> (text: &'static str)
    requires
        0x41 <= byte <= 0x5a,
    ensures
        text.spec_bytes() == seq![lowered_byte(byte)],
{
    let text = if byte == 0x41 {
        "a"
    } else if byte == 0x42 {
        "b"
    } else if byte == 0x43 {
        "c"
    } else if byte == 0x44 {
        "d"
    } else if byte == 0x45 {
        "e"
    } else if byte == 0x46 {
        "f"
    } else if byte == 0x47 {
        "g"
    } else if byte == 0x48 {
        "h"
    } else if byte == 0x49 {
        "i"
    } else if byte == 0x4a {
        "j"
    } else if byte == 0x4b {
        "k"
    } else if byte == 0x4c {
        "l"
    } else if byte == 0x4d {
        "m"
    } else if byte == 0x4e {
        "n"
    } else if byte == 0x4f {
        "o"
    } else if byte == 0x50 {
        "p"
    } else if byte == 0x51 {
        "q"
    } else if byte == 0x52 {
        "r"
    } else if byte == 0x53 {
        "s"
    } else if byte == 0x54 {
        "t"
    } else if byte == 0x55 {
        "u"
    } else if byte == 0x56 {
        "v"
    } else if byte == 0x57 {
        "w"
    } else if byte == 0x58 {
        "x"
    } else if byte == 0x59 {
        "y"
    } else {
        "z"
    };
    proof {
        reveal_strlit("a");
        reveal_strlit("b");
        reveal_strlit("c");
        reveal_strlit("d");
        reveal_strlit("e");
        reveal_strlit("f");
        reveal_strlit("g");
        reveal_strlit("h");
        reveal_strlit("i");
        reveal_strlit("j");
        reveal_strlit("k");
        reveal_strlit("l");
        reveal_strlit("m");
        reveal_strlit("n");
        reveal_strlit("o");
        reveal_strlit("p");
        reveal_strlit("q");
        reveal_strlit("r");
        reveal_strlit("s");
        reveal_strlit("t");
        reveal_strlit("u");
        reveal_strlit("v");
        reveal_strlit("w");
        reveal_strlit("x");
        reveal_strlit("y");
        reveal_strlit("z");
        is_ascii_chars_encode_utf8(text@);
        assert(text.spec_bytes() =~= seq![lowered_byte(byte)]);
    }
    text
}

/// `text` with its ASCII capitals in lower case.
pub fn lowercase(text: &str) -> (result: String)
    ensures
        encode_utf8(result@) == lowered(text.spec_bytes()),
{
    let bytes = text.as_bytes();
    let mut result = String::new();
    let mut from: usize = 0;
    let mut at: usize = 0;
    proof {
        lemma_str_is_valid(text);
    }
    assert(encode_utf8(result@) =~= lowered(bytes@.take(0)));
    while at < bytes.len()
        invariant
            bytes@ == text.spec_bytes(),
            vstd::utf8::valid_utf8(bytes@),
            from <= at <= bytes.len(),
            boundary(bytes@, from as int),
            encode_utf8(result@) == lowered(bytes@.take(from as int)),
            forall|i: int| from <= i < at ==> lowered_byte(#[trigger] bytes@[i]) == bytes@[i],
        decreases bytes.len() - at,
    {
        let byte = bytes[at];
        if 0x41 <= byte && byte <= 0x5a {
            proof {
                lemma_ascii_boundaries(bytes@, at as int);
            }
            push_str(&mut result, slice(text, from, at));
            push_str(&mut result, lower_letter(byte));
            assert(encode_utf8(result@) =~= lowered(bytes@.take(at + 1)));
            from = at + 1;
        }
        at = at + 1;
    }
    push_str(&mut result, slice(text, from, at));
    assert(encode_utf8(result@) =~= lowered(bytes@));
    result
}

/// The element type that the header line `line` names, in lower case;
/// `None` where the line is no header line. A header line begins with
/// `!!!` and matches the pattern of header lines.
pub open spec fn header_kind(line: Seq<u8>) -> Option<Seq<u8>> {
    match matched(header_pattern(), line) {
        Some(spans) => if has_prefix(line, lit("!!!")) && spans.len() >= 2 && spans[1] is Some {
            Some(lowered(line.subrange(spans[1].unwrap().0 as int, spans[1].unwrap().1 as int)))
        } else {
            None
        },
        None => None,
    }
}

/// How far the first property in `text` reaches, its key in lower case, and
/// its value.
pub open spec fn property_at(text: Seq<u8>) -> Option<(int, Seq<u8>, Seq<u8>)> {
    match matched(property_pattern(), text) {
        Some(spans) => if spans.len() >= 3 && spans[0].unwrap().1 > 0 && spans[1] is Some
            && spans[2] is Some {
            Some(
                (
                    spans[0].unwrap().1 as int,
                    lowered(text.subrange(spans[1].unwrap().0 as int, spans[1].unwrap().1 as int)),
                    text.subrange(spans[2].unwrap().0 as int, spans[2].unwrap().1 as int),
                ),
            )
        } else {
            None
        },
        None => None,
    }
}

/// `found` and the properties in `text`, one after the other; of two with
/// one key the later stays.
pub open spec fn properties_of(text: Seq<u8>, found: Seq<(Seq<u8>, Seq<u8>)>) -> Seq<
    (Seq<u8>, Seq<u8>),
>
    decreases text.len(),
{
    match property_at(text) {
        Some((end, key, value)) => if 0 < end <= text.len() {
            properties_of(text.skip(end), inserted(found, key, value))
        } else {
            found
        },
        None => found,
    }
}

/// The keys and values of `properties`, as UTF-8.
pub open spec fn properties_view(properties: Seq<(Seq<u8>, String)>) -> Seq<(Seq<u8>, Seq<u8>)> {
    Seq::new(properties.len(), |i: int| (properties[i].0, encode_utf8(properties[i].1@)))
}

/// Putting a value in and then reading the values as UTF-8 is reading them
/// and then putting its UTF-8 form in.
pub proof fn lemma_properties_view_inserted(
    properties: Seq<(Seq<u8>, String)>,
    key: Seq<u8>,
    value: String,
)
    ensures
        properties_view(inserted(properties, key, value)) == inserted(
            properties_view(properties),
            key,
            encode_utf8(value@),
        ),
    decreases properties.len(),
{
    let viewed = properties_view(properties);
    if properties.len() == 0 {
        assert(properties_view(inserted(properties, key, value)) =~= seq![
            (key, encode_utf8(value@)),
        ]);
    } else {
        assert(viewed[0].0 == properties[0].0);
        assert(properties_view(properties.drop_first()) =~= viewed.drop_first());
        if properties[0].0 == key {
            assert(properties_view(seq![(key, value)] + properties.drop_first()) =~= seq![
                (key, encode_utf8(value@)),
            ] + viewed.drop_first());
        } else if crate::entries::precedes(key, properties[0].0) {
            assert(properties_view(seq![(key, value)] + properties) =~= seq![
                (key, encode_utf8(value@)),
            ] + viewed);
        } else {
            lemma_properties_view_inserted(properties.drop_first(), key, value);
            assert(properties_view(
                seq![properties[0]] + inserted(properties.drop_first(), key, value),
            ) =~= seq![viewed[0]] + inserted(viewed.drop_first(), key, encode_utf8(value@)));
        }
    }
}

/// An element as the first pass finds it: the lines of its text, its type,
/// and the properties of its header.
pub struct ElementPrecursor {
    pub startline: usize,
    pub endline: usize,
    pub type_: String,
    pub properties: Entries<String>,
}

/// What an `ElementPrecursor` stands for.
pub struct Segment {
    pub startline: int,
    pub endline: int,
    pub kind: Seq<u8>,
    pub properties: Seq<(Seq<u8>, Seq<u8>)>,
}

impl View for ElementPrecursor {
    type V = Segment;

    open spec fn view(&self) -> Segment {
        Segment {
            startline: self.startline as int,
            endline: self.endline as int,
            kind: encode_utf8(self.type_@),
            properties: properties_view(self.properties.pairs()),
        }
    }
}

/// The segments that `precursors` stand for.
pub open spec fn segments_view(precursors: Seq<ElementPrecursor>) -> Seq<Segment> {
    Seq::new(precursors.len(), |i: int| precursors[i]@)
}

/// The element type that the header line `line` names, in lower case.
fn read_kind(grammar: &Grammar, line: &str) -> (kind: Option<String>)
    ensures
        match kind {
            Some(kind) => header_kind(line.spec_bytes()) == Some(encode_utf8(kind@)),
            None => header_kind(line.spec_bytes()) is None,
        },
{
    if !starts_with(line, "!!!") {
        return None;
    }
    match grammar.find(Rule::Header, line) {
        Some(spans) => {
            if spans.len() < 2 {
                return None;
            }
            match spans[1] {
                Some((from, to)) => Some(lowercase(slice(line, from, to))),
                None => None,
            }
        },
        None => None,
    }
}

/// The properties of the header line `line`.
fn read_properties(grammar: &Grammar, line: &str) -> (properties: Entries<String>)
    ensures
        properties.well_formed(),
        properties_view(properties.pairs()) == properties_of(line.spec_bytes(), Seq::empty()),
{
    let mut properties: Entries<String> = Entries::new();
    let mut rest = line;
    assert(properties_view(properties.pairs()) =~= Seq::<(Seq<u8>, Seq<u8>)>::empty());
    loop
        invariant
            properties.well_formed(),
            properties_of(rest.spec_bytes(), properties_view(properties.pairs()))
                == properties_of(line.spec_bytes(), Seq::empty()),
        decreases rest.spec_bytes().len(),
    {
        match grammar.find(Rule::Property, rest) {
            Some(spans) => {
                if spans.len() < 3 {
                    return properties;
                }
                match (spans[0], spans[1], spans[2]) {
                    (Some((_, end)), Some((key_from, key_to)), Some((from, to))) => {
                        if end == 0 {
                            return properties;
                        }
                        let key = lowercase(slice(rest, key_from, key_to));
                        let value = owned(slice(rest, from, to));
                        proof {
                            lemma_properties_view_inserted(
                                properties.pairs(),
                                encode_utf8(key@),
                                value,
                            );
                            vstd::utf8::encode_utf8_decode_utf8(value@);
                        }
                        properties.insert(key, value);
                        rest = skip(rest, end);
                    },
                    _ => {
                        return properties;
                    },
                }
            },
            None => {
                return properties;
            },
        }
    }
}

/// `segments`, the last of them ending with the line `endline`.
pub open spec fn closed_at(segments: Seq<Segment>, endline: int) -> Seq<Segment> {
    if segments.len() > 0 {
        segments.update(segments.len() - 1, Segment { endline, ..segments.last() })
    } else {
        segments
    }
}

/// The line before the line `at`, or the first line.
pub open spec fn line_before(at: int) -> int {
    if at > 0 {
        at - 1
    } else {
        0
    }
}

/// The segment that the header line `line`, the line `at` of the file,
/// opens: its text begins on the next line.
pub open spec fn opened(line: Seq<u8>, at: int) -> Segment {
    Segment {
        startline: at + 1,
        endline: 0,
        kind: header_kind(line).unwrap(),
        properties: properties_of(line, Seq::empty()),
    }
}

/// The segments of a file whose lines before `at` gave `found`: each
/// header line ends the segment before it and opens one, and the last
/// segment ends with the file.
pub open spec fn segments_from(lines: Seq<Seq<u8>>, at: int, found: Seq<Segment>) -> Seq<Segment>
    decreases lines.len() - at,
{
    if at < 0 || at >= lines.len() {
        closed_at(found, lines.len() as int)
    } else if header_kind(lines[at]) is Some {
        segments_from(lines, at + 1, closed_at(found, line_before(at)).push(opened(lines[at], at)))
    } else {
        segments_from(lines, at + 1, found)
    }
}

/// The text box that a file opens with where its first line is no header
/// line: it has no properties of its own.
pub open spec fn leading_text() -> Segment {
    Segment { startline: 0, endline: 0, kind: lit("text"), properties: Seq::empty() }
}

/// The segments of a file with these lines.
pub open spec fn segments_of(lines: Seq<Seq<u8>>) -> Seq<Segment> {
    if lines.len() > 0 && header_kind(lines[0]) is Some {
        segments_from(lines, 0, Seq::empty())
    } else {
        segments_from(lines, 0, seq![leading_text()])
    }
}

/// The properties of every precursor are in order.
pub open spec fn all_well_formed(precursors: Seq<ElementPrecursor>) -> bool {
    forall|i: int| 0 <= i < precursors.len() ==> (#[trigger] precursors[i]).properties.well_formed()
}

/// Sets the last line of the last precursor.
fn close(precursors: &mut Vec<ElementPrecursor>, endline: usize)
    requires
        all_well_formed(old(precursors)@),
    ensures
        all_well_formed(final(precursors)@),
        segments_view(final(precursors)@) == closed_at(
            segments_view(old(precursors)@),
            endline as int,
        ),
{
    match precursors.pop() {
        Some(last) => {
            let ghost kept = precursors@;
            let ElementPrecursor { startline, endline: _, type_, properties } = last;
            let closed = ElementPrecursor { startline, endline, type_, properties };
            precursors.push(closed);
            assert(old(precursors)@ =~= kept.push(last));
            assert(segments_view(precursors@) =~= closed_at(
                segments_view(old(precursors)@),
                endline as int,
            ));
            assert forall|i: int| 0 <= i < precursors@.len() implies (
            #[trigger] precursors@[i]).properties.well_formed() by {
                if i < kept.len() {
                    assert(precursors@[i] == old(precursors)@[i]);
                } else {
                    assert(old(precursors)@[i].properties.well_formed());
                }
            }
        },
        None => {},
    }
}

/// The elements of a file with these lines, as its header lines open them.
/// A file whose first line is no header line opens with a text box.
pub fn segments(grammar: &Grammar, lines: &Vec<&str>) -> (found: Vec<ElementPrecursor>)
    ensures
        all_well_formed(found@),
        segments_view(found@) == segments_of(lines_view(lines@)),
{
    let ghost model = lines_view(lines@);
    let mut found: Vec<ElementPrecursor> = Vec::new();
    let headed = if lines.len() > 0 {
        assert(model[0] == lines@[0].spec_bytes());
        read_kind(grammar, lines[0]).is_some()
    } else {
        false
    };
    if !headed {
        proof {
            vstd::utf8::encode_utf8_decode_utf8("text"@);
        }
        let leading = ElementPrecursor {
            startline: 0,
            endline: 0,
            type_: owned("text"),
            properties: Entries::new(),
        };
        found.push(leading);
        assert(properties_view(leading.properties.pairs()) =~= Seq::<(Seq<u8>, Seq<u8>)>::empty());
        assert(segments_view(found@) =~= seq![leading_text()]);
    } else {
        assert(segments_view(found@) =~= Seq::<Segment>::empty());
    }
    let mut at: usize = 0;
    while at < lines.len()
        invariant
            model == lines_view(lines@),
            at <= lines.len(),
            all_well_formed(found@),
            segments_from(model, at as int, segments_view(found@)) == segments_of(model),
        decreases lines.len() - at,
    {
        assert(model[at as int] == lines@[at as int].spec_bytes());
        match read_kind(grammar, lines[at]) {
            Some(kind) => {
                let before = if at > 0 {
                    at - 1
                } else {
                    0
                };
                close(&mut found, before);
                let ghost closed = segments_view(found@);
                let properties = read_properties(grammar, lines[at]);
                let precursor = ElementPrecursor {
                    startline: at + 1,
                    endline: 0,
                    type_: kind,
                    properties,
                };
                found.push(precursor);
                assert(segments_view(found@) =~= closed.push(opened(model[at as int], at as int)));
            },
            None => {},
        }
        at = at + 1;
    }
    close(&mut found, lines.len());
    found
}

// ------------------------------------------------------------------- keys

/// The text that tells one segment from another: its lines, its type, and
/// its properties in the order of their keys.
pub open spec fn signature_of(segment: Segment) -> Seq<u8> {
    digits_text(segment.startline as nat, 10) + lit(",") + digits_text(segment.endline as nat, 10)
        + lit(",") + segment.kind + properties_text(
        segment.properties,
        segment.properties.len() as int,
    )
}

/// The first `count` of `properties`, each written as `!key:value`.
pub open spec fn properties_text(properties: Seq<(Seq<u8>, Seq<u8>)>, count: int) -> Seq<u8>
    decreases count,
{
    if count <= 0 || count > properties.len() {
        Seq::empty()
    } else {
        properties_text(properties, count - 1) + lit("!") + properties[count - 1].0 + lit(":")
            + properties[count - 1].1
    }
}

/// What the hash starts from.
pub const HASH_BASIS: u64 = 0xcbf2_9ce4_8422_2325;

/// What the hash is multiplied by at each byte.
pub const HASH_PRIME: u64 = 0x0000_0100_0000_01b3;

/// The hash of `bytes`, begun at `state`: at each byte, the state is
/// combined with the byte by exclusive or and multiplied by `HASH_PRIME`,
/// in 64 bits.
pub open spec fn hashed(state: u64, bytes: Seq<u8>) -> u64
    decreases bytes.len(),
{
    if bytes.len() == 0 {
        state
    } else {
        (hashed(state, bytes.drop_last()) ^ (bytes.last() as u64)).wrapping_mul(HASH_PRIME)
    }
}

/// The hash of a text.
pub fn hash(text: &str) -> (digest: u64)
    ensures
        digest == hashed(HASH_BASIS, text.spec_bytes()),
{
    let bytes = text.as_bytes();
    let mut state = HASH_BASIS;
    let mut at: usize = 0;
    assert(bytes@.take(0) =~= Seq::<u8>::empty());
    while at < bytes.len()
        invariant
            at <= bytes.len(),
            state == hashed(HASH_BASIS, bytes@.take(at as int)),
        decreases bytes.len() - at,
    {
        assert(bytes@.take(at + 1).drop_last() =~= bytes@.take(at as int));
        state = (state ^ (bytes[at] as u64)).wrapping_mul(HASH_PRIME);
        at = at + 1;
    }
    assert(bytes@.take(at as int) =~= bytes@);
    state
}

/// The key of the segment that is the `index`-th of its file: the index, an
/// underscore, and the hash of the segment's signature in hexadecimal.
pub open spec fn key_of(index: int, segment: Segment) -> Seq<u8> {
    digits_text(index as nat, 10) + lit("_") + digits_text(
        hashed(HASH_BASIS, signature_of(segment)) as nat,
        16,
    )
}

/// The key of the element that is the `index`-th of its file. It stays the
/// same as long as the element keeps its place, its lines and its header.
pub fn element_key(index: usize, precursor: &ElementPrecursor) -> (key: String)
    ensures
        encode_utf8(key@) == key_of(index as int, precursor@),
{
    let mut signature = String::new();
    assert(encode_utf8(signature@) =~= Seq::<u8>::empty());
    push_digits(&mut signature, precursor.startline as u64, 10);
    push_str(&mut signature, ",");
    push_digits(&mut signature, precursor.endline as u64, 10);
    push_str(&mut signature, ",");
    push_str(&mut signature, precursor.type_.as_str());
    let ghost head = encode_utf8(signature@);
    let ghost properties = precursor@.properties;
    let mut at: usize = 0;
    let count = precursor.properties.len();
    assert(encode_utf8(signature@) =~= head + properties_text(properties, 0));
    while at < count
        invariant
            at <= count,
            count == precursor.properties.pairs().len(),
            properties == precursor@.properties,
            encode_utf8(signature@) == head + properties_text(properties, at as int),
        decreases count - at,
    {
        let ghost done = encode_utf8(signature@);
        push_str(&mut signature, "!");
        push_str(&mut signature, precursor.properties.key_at(at));
        push_str(&mut signature, ":");
        push_str(&mut signature, precursor.properties.value_at(at).as_str());
        at = at + 1;
        assert(encode_utf8(signature@) =~= head + properties_text(properties, at as int));
    }
    assert(encode_utf8(signature@) =~= signature_of(precursor@));
    let digest = hash(signature.as_str());
    let mut key = String::new();
    assert(encode_utf8(key@) =~= Seq::<u8>::empty());
    push_digits(&mut key, index as u64, 10);
    push_str(&mut key, "_");
    push_digits(&mut key, digest, 16);
    assert(encode_utf8(key@) =~= key_of(index as int, precursor@));
    key
}

/// Two elements at different places of a file have different keys.
pub proof fn lemma_keys_differ(first: int, one: Segment, second: int, other: Segment)
    requires
        0 <= first,
        0 <= second,
        first != second,
    ensures
        key_of(first, one) != key_of(second, other),
{
    reveal_strlit("_");
    is_ascii_chars_encode_utf8("_"@);
    assert(lit("_") =~= seq![0x5fu8]);
    lemma_key_index(first, one);
    lemma_key_index(second, other);
}

/// The digits that a key begins with write the place of its element.
proof fn lemma_key_index(index: int, segment: Segment)
    requires
        0 <= index,
        lit("_") == seq![0x5fu8],
    ensures
        digits_value(key_of(index, segment).take(digits_end(key_of(index, segment), 0))) == index,
{
    let digits = digits_text(index as nat, 10);
    let key = key_of(index, segment);
    lemma_digits_read_back(index as nat);
    assert forall|i: int| 0 <= i < digits.len() implies is_digit(#[trigger] key[i]) by {
        assert(key[i] == digits[i]);
    }
    assert(key[digits.len() as int] == 0x5f);
    lemma_digits_end_at(key, 0, digits.len() as int);
    assert(key.take(digits.len() as int) =~= digits);
}

/// Where line `index` begins in a file whose lines each end with one line
/// feed: behind the lines before it.
pub open spec fn line_offset(lines: Seq<Seq<u8>>, index: int) -> int
    decreases index,
{
    if index <= 0 || index > lines.len() {
        0
    } else {
        line_offset(lines, index - 1) + lines[index - 1].len() + 1
    }
}

/// `index`, or the nearest of 0 and the number of lines.
pub open spec fn line_within(lines: Seq<Seq<u8>>, index: int) -> int {
    if index < 0 {
        0
    } else if index > lines.len() {
        lines.len() as int
    } else {
        index
    }
}

proof fn lemma_joined_split(lines: Seq<Seq<u8>>, from: int, mid: int, until: int)
    requires
        0 <= from <= mid <= until,
    ensures
        joined_lines(lines, from, until) == joined_lines(lines, from, mid) + joined_lines(
            lines,
            mid,
            until,
        ),
    decreases mid - from,
{
    if from < mid && from < lines.len() {
        lemma_joined_split(lines, from + 1, mid, until);
        assert(joined_lines(lines, from, until) =~= joined_lines(lines, from, mid) + joined_lines(
            lines,
            mid,
            until,
        ));
    } else if from < mid {
        lemma_joined_beyond(lines, mid, until);
        assert(joined_lines(lines, from, until) =~= joined_lines(lines, from, mid) + joined_lines(
            lines,
            mid,
            until,
        ));
    } else {
        assert(joined_lines(lines, from, until) =~= joined_lines(lines, from, mid) + joined_lines(
            lines,
            mid,
            until,
        ));
    }
}

proof fn lemma_joined_beyond(lines: Seq<Seq<u8>>, from: int, until: int)
    requires
        from >= lines.len(),
    ensures
        joined_lines(lines, from, until) == Seq::<u8>::empty(),
{
}

proof fn lemma_joined_length(lines: Seq<Seq<u8>>, index: int)
    requires
        0 <= index <= lines.len(),
    ensures
        joined_lines(lines, 0, index).len() == line_offset(lines, index),
    decreases index,
{
    lemma_block_literals();
    if index > 0 {
        lemma_joined_length(lines, index - 1);
        lemma_joined_split(lines, 0, index - 1, index);
        assert(joined_lines(lines, index, index) =~= Seq::<u8>::empty());
    }
}

proof fn lemma_joined_shift(first: Seq<u8>, rest: Seq<Seq<u8>>, from: int, until: int)
    requires
        0 <= from,
    ensures
        joined_lines(seq![first] + rest, from + 1, until + 1) == joined_lines(rest, from, until),
    decreases until - from,
{
    let lines = seq![first] + rest;
    if from < until && from < rest.len() {
        assert(lines[from + 1] == rest[from]);
        lemma_joined_shift(first, rest, from + 1, until);
    }
}

/// The lines of an element are a piece of all the lines of the file.
pub proof fn lemma_body_is_slice(lines: Seq<Seq<u8>>, startline: int, endline: int)
    requires
        0 <= startline,
    ensures
        ({
            let from = line_within(lines, startline);
            let until = if line_within(lines, endline + 1) < from {
                from
            } else {
                line_within(lines, endline + 1)
            };
            &&& 0 <= line_offset(lines, from) <= line_offset(lines, until) <= joined_lines(
                lines,
                0,
                lines.len() as int,
            ).len()
            &&& body_of(lines, startline, endline) == joined_lines(
                lines,
                0,
                lines.len() as int,
            ).subrange(line_offset(lines, from), line_offset(lines, until))
        }),
{
    let count = lines.len() as int;
    let from = line_within(lines, startline);
    let until = if line_within(lines, endline + 1) < from {
        from
    } else {
        line_within(lines, endline + 1)
    };
    let whole = joined_lines(lines, 0, count);
    lemma_joined_split(lines, 0, from, count);
    lemma_joined_split(lines, from, until, count);
    lemma_joined_length(lines, from);
    lemma_joined_split(lines, 0, until, count);
    lemma_joined_length(lines, until);
    lemma_joined_split(lines, 0, from, until);
    assert(whole =~= joined_lines(lines, 0, from) + joined_lines(lines, from, until)
        + joined_lines(lines, until, count));
    assert(joined_lines(lines, from, until) =~= whole.subrange(
        line_offset(lines, from),
        line_offset(lines, until),
    ));
    if startline >= count || endline + 1 <= startline {
        assert(joined_lines(lines, from, until) =~= Seq::<u8>::empty());
    } else if endline + 1 > count {
        lemma_joined_split(lines, startline, count, endline + 1);
        lemma_joined_beyond(lines, count, endline + 1);
        assert(joined_lines(lines, startline, endline + 1) =~= joined_lines(
            lines,
            from,
            until,
        ));
    }
}

/// A file that ends each of its lines with a line feed alone is its lines,
/// each with its line feed.
pub proof fn lemma_file_is_its_lines(text: Seq<u8>, from: int)
    requires
        0 <= from <= text.len(),
        without(text, 0x0d),
        text.len() > 0 ==> text.last() == 0x0a,
    ensures
        joined_lines(lines_from(text, from), 0, lines_from(text, from).len() as int) == text.skip(
            from,
        ),
    decreases text.len() - from,
{
    lemma_block_literals();
    if from < text.len() {
        lemma_line_end(text, from);
        let end = line_end(text, from);
        assert(end < text.len()) by {
            if end == text.len() {
                assert(text[text.len() - 1] != 0x0a);
            }
        }
        assert(line_stop(text, from) == end) by {
            if from < end {
                assert(text[end - 1] != 0x0d);
            }
        }
        let first = text.subrange(from, end);
        let rest = lines_from(text, end + 1);
        lemma_file_is_its_lines(text, end + 1);
        lemma_joined_shift(first, rest, 0, rest.len() as int);
        let count = rest.len() as int;
        assert(joined_lines(seq![first] + rest, 0, count + 1) =~= first + lit("\n")
            + joined_lines(seq![first] + rest, 1, count + 1));
        assert(first + lit("\n") + text.skip(end + 1) =~= text.skip(from));
    } else {
        assert(text.skip(from) =~= Seq::<u8>::empty());
    }
}

} // verus!
