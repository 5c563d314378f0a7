//! The document: the elements of a file under their keys, how a file is
//! read into it, how an update is taken into it, and how it is written.

use vstd::prelude::*;
use vstd::string::StringSliceAdditionalSpecFns;
use vstd::utf8::{encode_utf8, encode_utf8_decode_utf8};

use crate::block::{blocks_have_math, blocks_of, lemma_block_literals, parse_text_blocks};
use crate::element::{header_line, header_of, repr_of, Element, Shape};
use crate::entries::{inserted, lemma_new_key, lookup, precedes, Entries};
use crate::error::ParseError;
use crate::number::{integer_of, push_str, read_integer, read_tenths, tenths_of};
use crate::pattern::Grammar;
use crate::segment::{
    all_well_formed, body, body_of, closed_at, element_key, header_kind, joined_lines, key_of,
    leading_text, lemma_body_is_slice, lemma_file_is_its_lines, lemma_keys_differ, line_before,
    line_offset, line_stop, line_within, lines, lines_from, opened, lines_of, lines_view, properties_view, segments, segments_from,
    segments_of, segments_view, ElementPrecursor, Segment,
};
use crate::space::{lemma_line_end, next_line};
use crate::text::{has_prefix, lemma_joined_without, lemma_part_without, lit, owned, without};
use crate::tree::{blocks_view, TextBlock};

verus! {

// ------------------------------------------------------------- properties

/// Reading a value as UTF-8 and looking it up is looking it up and reading
/// it as UTF-8.
pub proof fn lemma_lookup_view(properties: Seq<(Seq<u8>, String)>, key: Seq<u8>)
    ensures
        lookup(properties_view(properties), key) == match lookup(properties, key) {
            Some(value) => Some(encode_utf8(value@)),
            None => None,
        },
    decreases properties.len(),
{
    let viewed = properties_view(properties);
    if properties.len() > 0 {
        assert(viewed[0] == (properties[0].0, encode_utf8(properties[0].1@)));
        assert(properties_view(properties.drop_first()) =~= viewed.drop_first());
        lemma_lookup_view(properties.drop_first(), key);
    }
}

/// The coordinate that the property `name` gives, in tenths: its value where
/// the header has it, else the default. An error where the value does not
/// read as a number that fits, or where the property is missing and has no
/// default.
pub open spec fn number_property(
    properties: Seq<(Seq<u8>, Seq<u8>)>,
    name: Seq<u8>,
    default: Option<int>,
) -> Result<int, ParseError> {
    match lookup(properties, name) {
        Some(value) => match tenths_of(value) {
            Some(number) => if i64::MIN <= number <= i64::MAX {
                Ok(number)
            } else {
                Err(ParseError::InvalidPropertyValue)
            },
            None => Err(ParseError::InvalidPropertyValue),
        },
        None => match default {
            Some(number) => Ok(number),
            None => Err(ParseError::MissingProperty),
        },
    }
}

/// The whole number that the property `name` gives, as `number_property`
/// gives a coordinate.
pub open spec fn integer_property(
    properties: Seq<(Seq<u8>, Seq<u8>)>,
    name: Seq<u8>,
    default: Option<int>,
) -> Result<int, ParseError> {
    match lookup(properties, name) {
        Some(value) => match integer_of(value) {
            Some(number) => if i32::MIN <= number <= i32::MAX {
                Ok(number)
            } else {
                Err(ParseError::InvalidPropertyValue)
            },
            None => Err(ParseError::InvalidPropertyValue),
        },
        None => match default {
            Some(number) => Ok(number),
            None => Err(ParseError::MissingProperty),
        },
    }
}

/// The text that the property `name` gives: its value where the header has
/// it, else the default.
pub open spec fn text_property(
    properties: Seq<(Seq<u8>, Seq<u8>)>,
    name: Seq<u8>,
    default: Option<Seq<u8>>,
) -> Result<Seq<u8>, ParseError> {
    match lookup(properties, name) {
        Some(value) => Ok(value),
        None => match default {
            Some(value) => Ok(value),
            None => Err(ParseError::MissingProperty),
        },
    }
}

/// The coordinate that the property `name` of `precursor` gives, in tenths.
pub fn parse_number(precursor: &ElementPrecursor, name: &str, default: Option<i64>) -> (result:
    Result<i64, ParseError>)
    requires
        precursor.properties.well_formed(),
    ensures
        match result {
            Ok(number) => number_property(
                precursor@.properties,
                name.spec_bytes(),
                match default {
                    Some(number) => Some(number as int),
                    None => None,
                },
            ) == Ok::<int, ParseError>(number as int),
            Err(error) => number_property(
                precursor@.properties,
                name.spec_bytes(),
                match default {
                    Some(number) => Some(number as int),
                    None => None,
                },
            ) == Err::<int, ParseError>(error),
        },
{
    proof {
        lemma_lookup_view(precursor.properties.pairs(), name.spec_bytes());
    }
    match precursor.properties.get(name) {
        Some(value) => match read_tenths(value.as_str()) {
            Some(number) => Ok(number),
            None => Err(ParseError::InvalidPropertyValue),
        },
        None => match default {
            Some(number) => Ok(number),
            None => Err(ParseError::MissingProperty),
        },
    }
}

/// The whole number that the property `name` of `precursor` gives.
pub fn parse_int(precursor: &ElementPrecursor, name: &str, default: Option<i32>) -> (result: Result<
    i32,
    ParseError,
>)
    requires
        precursor.properties.well_formed(),
    ensures
        match result {
            Ok(number) => integer_property(
                precursor@.properties,
                name.spec_bytes(),
                match default {
                    Some(number) => Some(number as int),
                    None => None,
                },
            ) == Ok::<int, ParseError>(number as int),
            Err(error) => integer_property(
                precursor@.properties,
                name.spec_bytes(),
                match default {
                    Some(number) => Some(number as int),
                    None => None,
                },
            ) == Err::<int, ParseError>(error),
        },
{
    proof {
        lemma_lookup_view(precursor.properties.pairs(), name.spec_bytes());
    }
    match precursor.properties.get(name) {
        Some(value) => match read_integer(value.as_str()) {
            Some(number) => Ok(number),
            None => Err(ParseError::InvalidPropertyValue),
        },
        None => match default {
            Some(number) => Ok(number),
            None => Err(ParseError::MissingProperty),
        },
    }
}

/// The text that the property `name` of `precursor` gives.
pub fn parse_string(precursor: &ElementPrecursor, name: &str, default: Option<String>) -> (result:
    Result<String, ParseError>)
    requires
        precursor.properties.well_formed(),
    ensures
        match result {
            Ok(text) => text_property(
                precursor@.properties,
                name.spec_bytes(),
                match default {
                    Some(text) => Some(encode_utf8(text@)),
                    None => None,
                },
            ) == Ok::<Seq<u8>, ParseError>(encode_utf8(text@)),
            Err(error) => text_property(
                precursor@.properties,
                name.spec_bytes(),
                match default {
                    Some(text) => Some(encode_utf8(text@)),
                    None => None,
                },
            ) == Err::<Seq<u8>, ParseError>(error),
        },
{
    proof {
        lemma_lookup_view(precursor.properties.pairs(), name.spec_bytes());
    }
    match precursor.properties.get(name) {
        Some(value) => Ok(value.clone()),
        None => match default {
            Some(text) => Ok(text),
            None => Err(ParseError::MissingProperty),
        },
    }
}

// ---------------------------------------------------------------- elements

/// The element that `segment` describes, a text box still without blocks.
///
/// A text box stands at (-350.0, 30.0) and is 700.0 wide unless its header
/// says otherwise. A line needs all four of its coordinates. A rectangle
/// stands at (-400.0, 0.0), is 800.0 by 600.0, lies at depth -1 and has the
/// color `#00827c` unless its header says otherwise.
#[verifier::opaque]
pub open spec fn frame_of(segment: Segment, text: Seq<u8>) -> Result<Shape, ParseError> {
    let properties = segment.properties;
    if segment.kind == lit("text") {
        match number_property(properties, lit("x"), Some(-3500)) {
            Err(error) => Err(error),
            Ok(x) => match number_property(properties, lit("y"), Some(300)) {
                Err(error) => Err(error),
                Ok(y) => match number_property(properties, lit("width"), Some(7000)) {
                    Err(error) => Err(error),
                    Ok(width) => Ok(
                        Shape::TextBox { x, y, width, data: Seq::empty(), raw_content: text },
                    ),
                },
            },
        }
    } else if segment.kind == lit("line") {
        match number_property(properties, lit("x1"), None) {
            Err(error) => Err(error),
            Ok(x1) => match number_property(properties, lit("y1"), None) {
                Err(error) => Err(error),
                Ok(y1) => match number_property(properties, lit("x2"), None) {
                    Err(error) => Err(error),
                    Ok(x2) => match number_property(properties, lit("y2"), None) {
                        Err(error) => Err(error),
                        Ok(y2) => Ok(Shape::Line { x1, y1, x2, y2 }),
                    },
                },
            },
        }
    } else if segment.kind == lit("rect") || segment.kind == lit("rectangle") {
        match number_property(properties, lit("x"), Some(-4000)) {
            Err(error) => Err(error),
            Ok(x) => match number_property(properties, lit("y"), Some(0)) {
                Err(error) => Err(error),
                Ok(y) => match number_property(properties, lit("width"), Some(8000)) {
                    Err(error) => Err(error),
                    Ok(width) => match number_property(properties, lit("height"), Some(6000)) {
                        Err(error) => Err(error),
                        Ok(height) => match integer_property(properties, lit("z"), Some(-1)) {
                            Err(error) => Err(error),
                            Ok(z) => match text_property(
                                properties,
                                lit("color"),
                                Some(lit("#00827c")),
                            ) {
                                Err(error) => Err(error),
                                Ok(color) => Ok(Shape::Rect { x, y, width, height, z, color }),
                            },
                        },
                    },
                },
            },
        }
    } else {
        Err(ParseError::UnknownElementType)
    }
}

/// `shape`, a text box with the blocks that its text parses to.
pub open spec fn filled(shape: Shape) -> Shape {
    match shape {
        Shape::TextBox { x, y, width, data, raw_content } => Shape::TextBox {
            x,
            y,
            width,
            data: blocks_of(raw_content),
            raw_content,
        },
        other => other,
    }
}

/// The element that `segment` describes, with `text` as the text of its
/// lines.
pub open spec fn shape_of(segment: Segment, text: Seq<u8>) -> Result<Shape, ParseError> {
    match frame_of(segment, text) {
        Ok(shape) => Ok(filled(shape)),
        Err(error) => Err(error),
    }
}

/// Whether a formula stands in the text of `shape`.
pub open spec fn shape_has_math(shape: Shape) -> bool {
    match shape {
        Shape::TextBox { data, .. } => blocks_have_math(data),
        _ => false,
    }
}

/// The element that `precursor` describes, a text box still without blocks.
pub fn frame(precursor: &ElementPrecursor, text: String) -> (result: Result<Element, ParseError>)
    requires
        precursor.properties.well_formed(),
    ensures
        match result {
            Ok(element) => frame_of(precursor@, encode_utf8(text@)) == Ok::<Shape, ParseError>(
                element@,
            ),
            Err(error) => frame_of(precursor@, encode_utf8(text@)) == Err::<Shape, ParseError>(
                error,
            ) && error != ParseError::MathRenderFailure,
        },
{
    reveal(frame_of);
    let kind = precursor.type_.as_str();
    if same(kind, "text") {
        let x = match parse_number(precursor, "x", Some(-3500)) {
            Ok(number) => number,
            Err(error) => {
                return Err(error);
            },
        };
        let y = match parse_number(precursor, "y", Some(300)) {
            Ok(number) => number,
            Err(error) => {
                return Err(error);
            },
        };
        let width = match parse_number(precursor, "width", Some(7000)) {
            Ok(number) => number,
            Err(error) => {
                return Err(error);
            },
        };
        let element = Element::TextBox { x, y, width, data: Vec::new(), raw_content: text };
        assert(blocks_view(Seq::<TextBlock>::empty()) =~= Seq::empty());
        Ok(element)
    } else if same(kind, "line") {
        let x1 = match parse_number(precursor, "x1", None) {
            Ok(number) => number,
            Err(error) => {
                return Err(error);
            },
        };
        let y1 = match parse_number(precursor, "y1", None) {
            Ok(number) => number,
            Err(error) => {
                return Err(error);
            },
        };
        let x2 = match parse_number(precursor, "x2", None) {
            Ok(number) => number,
            Err(error) => {
                return Err(error);
            },
        };
        let y2 = match parse_number(precursor, "y2", None) {
            Ok(number) => number,
            Err(error) => {
                return Err(error);
            },
        };
        Ok(Element::Line { x1, y1, x2, y2 })
    } else if same(kind, "rect") || same(kind, "rectangle") {
        let x = match parse_number(precursor, "x", Some(-4000)) {
            Ok(number) => number,
            Err(error) => {
                return Err(error);
            },
        };
        let y = match parse_number(precursor, "y", Some(0)) {
            Ok(number) => number,
            Err(error) => {
                return Err(error);
            },
        };
        let width = match parse_number(precursor, "width", Some(8000)) {
            Ok(number) => number,
            Err(error) => {
                return Err(error);
            },
        };
        let height = match parse_number(precursor, "height", Some(6000)) {
            Ok(number) => number,
            Err(error) => {
                return Err(error);
            },
        };
        let z = match parse_int(precursor, "z", Some(-1)) {
            Ok(number) => number,
            Err(error) => {
                return Err(error);
            },
        };
        proof {
            encode_utf8_decode_utf8("#00827c"@);
        }
        let color = match parse_string(precursor, "color", Some(owned("#00827c"))) {
            Ok(text) => text,
            Err(error) => {
                return Err(error);
            },
        };
        Ok(Element::Rect { x, y, width, height, z, color })
    } else {
        Err(ParseError::UnknownElementType)
    }
}

/// Whether two texts are the same.
fn same(left: &str, right: &str) -> (yes: bool)
    ensures
        yes == (left.spec_bytes() == right.spec_bytes()),
{
    match crate::entries::compare_keys(left, right) {
        crate::entries::Place::Same => true,
        _ => false,
    }
}

// --------------------------------------------------------------- document

/// The elements of a canvas under their keys.
pub struct Document {
    pub elements: Entries<Element>,
    /// When the document was first made, in seconds since the epoch.
    pub created: u64,
}

/// What a `Document` stands for: its elements in the order of their keys.
pub struct Canvas {
    pub elements: Seq<(Seq<u8>, Shape)>,
    pub created: int,
}

/// The shapes that `elements` stand for, under their keys.
pub open spec fn shapes_view(elements: Seq<(Seq<u8>, Element)>) -> Seq<(Seq<u8>, Shape)> {
    Seq::new(elements.len(), |i: int| (elements[i].0, elements[i].1@))
}

/// Putting an element in and then reading the shapes is reading them and
/// then putting its shape in.
pub proof fn lemma_shapes_view_inserted(
    elements: Seq<(Seq<u8>, Element)>,
    key: Seq<u8>,
    element: Element,
)
    ensures
        shapes_view(inserted(elements, key, element)) == inserted(
            shapes_view(elements),
            key,
            element@,
        ),
    decreases elements.len(),
{
    let viewed = shapes_view(elements);
    if elements.len() == 0 {
        assert(shapes_view(inserted(elements, key, element)) =~= seq![(key, element@)]);
    } else {
        assert(viewed[0].0 == elements[0].0);
        assert(shapes_view(elements.drop_first()) =~= viewed.drop_first());
        if elements[0].0 == key {
            assert(shapes_view(seq![(key, element)] + elements.drop_first()) =~= seq![
                (key, element@),
            ] + viewed.drop_first());
        } else if precedes(key, elements[0].0) {
            assert(shapes_view(seq![(key, element)] + elements) =~= seq![(key, element@)]
                + viewed);
        } else {
            lemma_shapes_view_inserted(elements.drop_first(), key, element);
            assert(shapes_view(
                seq![elements[0]] + inserted(elements.drop_first(), key, element),
            ) =~= seq![viewed[0]] + inserted(viewed.drop_first(), key, element@));
        }
    }
}

/// Looking a shape up is looking the element up and reading its shape.
pub proof fn lemma_lookup_shape(elements: Seq<(Seq<u8>, Element)>, key: Seq<u8>)
    ensures
        lookup(shapes_view(elements), key) == match lookup(elements, key) {
            Some(element) => Some(element@),
            None => None,
        },
    decreases elements.len(),
{
    let viewed = shapes_view(elements);
    if elements.len() > 0 {
        assert(viewed[0] == (elements[0].0, elements[0].1@));
        assert(shapes_view(elements.drop_first()) =~= viewed.drop_first());
        lemma_lookup_shape(elements.drop_first(), key);
    }
}

impl View for Document {
    type V = Canvas;

    open spec fn view(&self) -> Canvas {
        Canvas { elements: shapes_view(self.elements.pairs()), created: self.created as int }
    }
}

/// The elements of the first `count` segments of a file, under their keys.
/// The first segment that does not describe an element gives its error to
/// the whole file.
#[verifier::opaque]
pub open spec fn elements_of(lines: Seq<Seq<u8>>, segments: Seq<Segment>, count: int) -> Result<
    Seq<(Seq<u8>, Shape)>,
    ParseError,
>
    decreases count,
{
    if count <= 0 || count > segments.len() {
        Ok(Seq::empty())
    } else {
        match elements_of(lines, segments, count - 1) {
            Err(error) => Err(error),
            Ok(found) => match segment_shape(lines, segments, count - 1) {
                Err(error) => Err(error),
                Ok(shape) => Ok(inserted(found, key_of(count - 1, segments[count - 1]), shape)),
            },
        }
    }
}

/// The element that the segment `at` of a file describes.
pub open spec fn segment_shape(lines: Seq<Seq<u8>>, segments: Seq<Segment>, at: int) -> Result<
    Shape,
    ParseError,
> {
    shape_of(segments[at], body_of(lines, segments[at].startline, segments[at].endline))
}

/// The document that the file `text` holds, made at `created`; or why it
/// holds none, as far as that lies in the headers.
pub open spec fn document_of(text: Seq<u8>, created: int) -> Result<Canvas, ParseError> {
    let lines = lines_of(text);
    let segments = segments_of(lines);
    match elements_of(lines, segments, segments.len() as int) {
        Ok(elements) => Ok(Canvas { elements, created }),
        Err(error) => Err(error),
    }
}

/// Whether a formula stands in one of the text boxes of the file `text`.
pub open spec fn file_has_math(text: Seq<u8>) -> bool {
    let lines = lines_of(text);
    let segments = segments_of(lines);
    exists|at: int|
        0 <= at < segments.len() && (#[trigger] segment_shape(lines, segments, at)) is Ok
            && shape_has_math(segment_shape(lines, segments, at)->Ok_0)
}

/// An error among the first segments is the error of the file.
pub proof fn lemma_first_error(lines: Seq<Seq<u8>>, segments: Seq<Segment>, count: int, all: int)
    requires
        0 <= count <= all <= segments.len(),
        elements_of(lines, segments, count) is Err,
    ensures
        elements_of(lines, segments, all) == elements_of(lines, segments, count),
    decreases all - count,
{
    reveal(elements_of);
    if count < all {
        lemma_first_error(lines, segments, count, all - 1);
    }
}

impl Document {
    /// The elements are in the order of their keys.
    pub open spec fn well_formed(self) -> bool {
        self.elements.well_formed()
    }

    /// A document without elements, made at `created`.
    pub fn new(created: u64) -> (document: Self)
        ensures
            document.well_formed(),
            document@ == (Canvas { elements: Seq::empty(), created: created as int }),
    {
        let document = Document { elements: Entries::new(), created };
        assert(shapes_view(document.elements.pairs()) =~= Seq::<(Seq<u8>, Shape)>::empty());
        document
    }
}

/// The text box `element` with the blocks of its text; any other element as
/// it is. `None` where a formula of the text does not render.
fn fill(grammar: &Grammar, element: Element) -> (result: Option<Element>)
    ensures
        match result {
            Some(full) => full@ == filled(element@),
            None => shape_has_math(filled(element@)),
        },
{
    match element {
        Element::TextBox { x, y, width, data: _, raw_content } => {
            match parse_text_blocks(grammar, raw_content.as_str()) {
                Ok(data) => Some(Element::TextBox { x, y, width, data, raw_content }),
                Err(_) => None,
            }
        },
        other => Some(other),
    }
}

/// What `parse` returns for the file `text`: its document where the headers
/// describe one, unless a formula failed to render; else the error of the
/// headers.
pub open spec fn parsed(text: Seq<u8>, created: int, result: Result<Document, ParseError>) -> bool {
    match result {
        Ok(document) => document.well_formed() && document_of(text, created) == Ok::<
            Canvas,
            ParseError,
        >(document@),
        Err(error) => if error == ParseError::MathRenderFailure {
            document_of(text, created) is Ok && file_has_math(text)
        } else {
            document_of(text, created) == Err::<Canvas, ParseError>(error)
        },
    }
}

/// The element that the precursor `at` of a file describes. `Ok(None)`
/// where a formula of its text does not render.
fn element_at(
    grammar: &Grammar,
    file_lines: &Vec<&str>,
    precursors: &Vec<ElementPrecursor>,
    at: usize,
) -> (result: Result<Option<Element>, ParseError>)
    requires
        at < precursors.len(),
        all_well_formed(precursors@),
    ensures
        match result {
            Ok(Some(element)) => segment_shape(
                lines_view(file_lines@),
                segments_view(precursors@),
                at as int,
            ) == Ok::<Shape, ParseError>(element@),
            Ok(None) => segment_shape(
                lines_view(file_lines@),
                segments_view(precursors@),
                at as int,
            ) matches Ok(shape) && shape_has_math(shape),
            Err(error) => segment_shape(
                lines_view(file_lines@),
                segments_view(precursors@),
                at as int,
            ) == Err::<Shape, ParseError>(error) && error != ParseError::MathRenderFailure,
        },
{
    let precursor = &precursors[at];
    assert(segments_view(precursors@)[at as int] == precursor@);
    assert(precursor.properties.well_formed());
    let content = body(file_lines, precursor.startline, precursor.endline);
    match frame(precursor, content) {
        Ok(element) => Ok(fill(grammar, element)),
        Err(error) => Err(error),
    }
}

/// Puts the element that the precursor `at` of a file describes into
/// `document`, unless a formula has failed to render before. Returns
/// whether one has failed by now.
fn put_element(
    grammar: &Grammar,
    file_lines: &Vec<&str>,
    precursors: &Vec<ElementPrecursor>,
    at: usize,
    document: &mut Document,
    failed: bool,
) -> (result: Result<bool, ParseError>)
    requires
        at < precursors.len(),
        all_well_formed(precursors@),
        old(document).well_formed(),
    ensures
        final(document).well_formed(),
        final(document).created == old(document).created,
        match result {
            Ok(fails) => {
                let shape = segment_shape(
                    lines_view(file_lines@),
                    segments_view(precursors@),
                    at as int,
                );
                &&& shape is Ok
                &&& failed ==> fails
                &&& fails && !failed ==> shape_has_math(shape->Ok_0)
                &&& !fails ==> final(document)@.elements == inserted(
                    old(document)@.elements,
                    key_of(at as int, segments_view(precursors@)[at as int]),
                    shape->Ok_0,
                )
            },
            Err(error) => segment_shape(
                lines_view(file_lines@),
                segments_view(precursors@),
                at as int,
            ) == Err::<Shape, ParseError>(error) && error != ParseError::MathRenderFailure,
        },
{
    match element_at(grammar, file_lines, precursors, at) {
        Ok(Some(full)) => {
            if failed {
                return Ok(true);
            }
            let key = element_key(at, &precursors[at]);
            proof {
                lemma_shapes_view_inserted(document.elements.pairs(), encode_utf8(key@), full);
            }
            document.elements.insert(key, full);
            Ok(false)
        },
        Ok(None) => Ok(true),
        Err(error) => Err(error),
    }
}

/// How the elements of the first `count` segments come from those of the
/// segments before the last of them.
pub proof fn lemma_elements_step(lines: Seq<Seq<u8>>, segments: Seq<Segment>, count: int)
    requires
        0 < count <= segments.len(),
    ensures
        elements_of(lines, segments, count) == match elements_of(lines, segments, count - 1) {
            Err(error) => Err(error),
            Ok(found) => match segment_shape(lines, segments, count - 1) {
                Err(error) => Err(error),
                Ok(shape) => Ok(inserted(found, key_of(count - 1, segments[count - 1]), shape)),
            },
        },
        elements_of(lines, segments, 0) == Ok::<Seq<(Seq<u8>, Shape)>, ParseError>(Seq::empty()),
{
    reveal(elements_of);
}

/// Reads the file `text` into a document made at `created`.
///
/// The headers decide first: where one of them names no element, lacks a
/// property or has a value that does not read, that error is returned,
/// whatever else the file holds. Where they describe a document, it is
/// returned, unless a formula fails to render; so a file without a formula
/// whose headers are in order always gives its document.
pub fn parse(grammar: &Grammar, text: &str, created: u64) -> (result: Result<Document, ParseError>)
    ensures
        parsed(text.spec_bytes(), created as int, result),
{
    let file_lines = lines(text);
    let precursors = segments(grammar, &file_lines);
    let ghost model_lines = lines_view(file_lines@);
    let ghost model = segments_view(precursors@);
    let mut document = Document::new(created);
    let mut failed = false;
    let ghost mut witness: int = 0;
    let mut at: usize = 0;
    proof {
        reveal(elements_of);
    }
    while at < precursors.len()
        invariant
            at <= precursors.len(),
            model_lines == lines_view(file_lines@),
            model_lines == lines_of(text.spec_bytes()),
            model == segments_view(precursors@),
            model == segments_of(model_lines),
            all_well_formed(precursors@),
            document.well_formed(),
            document.created == created,
            elements_of(model_lines, model, at as int) is Ok,
            !failed ==> elements_of(model_lines, model, at as int)->Ok_0 == document@.elements,
            failed ==> 0 <= witness < at && segment_shape(model_lines, model, witness) is Ok
                && shape_has_math(segment_shape(model_lines, model, witness)->Ok_0),
        decreases precursors.len() - at,
    {
        proof {
            lemma_elements_step(model_lines, model, at + 1);
        }
        match put_element(grammar, &file_lines, &precursors, at, &mut document, failed) {
            Ok(fails) => {
                if fails && !failed {
                    proof {
                        witness = at as int;
                    }
                }
                failed = fails;
            },
            Err(error) => {
                proof {
                    lemma_first_error(model_lines, model, at + 1, model.len() as int);
                }
                return Err(error);
            },
        }
        at = at + 1;
    }
    if failed {
        assert(segment_shape(model_lines, model, witness) is Ok);
        Err(ParseError::MathRenderFailure)
    } else {
        Ok(document)
    }
}

// ----------------------------------------------------------------- update

/// A change to one element, as an editor sends it.
pub struct DocumentUpdate {
    /// The key of the element.
    pub id: String,
    pub element: Element,
    /// The `created` of the document that the editor worked on.
    pub doc_created: u64,
}

/// The answer to an update that was made on a document older than the one
/// at hand.
#[derive(Debug, Clone, Copy, PartialEq, Eq, Structural)]
pub struct Stale;

/// The element that an update puts under its key: the incoming one, but
/// where a text box replaces a text box, with the text that was there.
pub open spec fn merged(existing: Option<Shape>, incoming: Shape) -> Shape {
    match (existing, incoming) {
        (
            Some(Shape::TextBox { raw_content: kept, .. }),
            Shape::TextBox { x, y, width, data, raw_content },
        ) => Shape::TextBox { x, y, width, data, raw_content: kept },
        _ => incoming,
    }
}

/// The text of a file that holds `elements`: the text of each, in the order
/// of the keys.
pub open spec fn file_of(elements: Seq<(Seq<u8>, Shape)>, count: int) -> Seq<u8>
    decreases count,
{
    if count <= 0 || count > elements.len() {
        Seq::empty()
    } else {
        file_of(elements, count - 1) + repr_of(elements[count - 1].1)
    }
}

impl Document {
    /// Takes `update` into the document. An update made on an older
    /// document is refused and changes nothing. Otherwise its element goes
    /// under its key; a text box that replaces a text box keeps the text
    /// that the file had for it.
    pub fn apply_update(&mut self, update: DocumentUpdate) -> (result: Result<(), Stale>)
        requires
            old(self).well_formed(),
        ensures
            final(self).well_formed(),
            final(self).created == old(self).created,
            update.doc_created < old(self).created ==> result is Err && final(self)@ == old(self)@,
            update.doc_created >= old(self).created ==> result is Ok && final(self)@.elements
                == inserted(
                old(self)@.elements,
                encode_utf8(update.id@),
                merged(lookup(old(self)@.elements, encode_utf8(update.id@)), update.element@),
            ),
    {
        if self.created > update.doc_created {
            return Err(Stale);
        }
        let DocumentUpdate { id, element, doc_created: _ } = update;
        proof {
            lemma_lookup_shape(self.elements.pairs(), encode_utf8(id@));
        }
        let kept: Option<String> = match self.elements.get(id.as_str()) {
            Some(Element::TextBox { raw_content, .. }) => Some(raw_content.clone()),
            _ => None,
        };
        let element = match (kept, element) {
            (Some(kept), Element::TextBox { x, y, width, data, raw_content: _ }) => {
                Element::TextBox { x, y, width, data, raw_content: kept }
            },
            (_, element) => element,
        };
        proof {
            lemma_shapes_view_inserted(self.elements.pairs(), encode_utf8(id@), element);
        }
        self.elements.insert(id, element);
        Ok(())
    }

    /// The text of the file that holds the document: the text of each
    /// element, in the order of the keys.
    pub fn file_text(&self) -> (text: String)
        ensures
            encode_utf8(text@) == file_of(self@.elements, self@.elements.len() as int),
    {
        let mut text = String::new();
        let count = self.elements.len();
        let mut at: usize = 0;
        assert(encode_utf8(text@) =~= Seq::<u8>::empty());
        while at < count
            invariant
                at <= count,
                count == self.elements.pairs().len(),
                encode_utf8(text@) == file_of(self@.elements, at as int),
            decreases count - at,
        {
            let part = self.elements.value_at(at).write_repr();
            push_str(&mut text, part.as_str());
            at = at + 1;
        }
        text
    }
}

// ------------------------------------------------------------------- laws

proof fn lemma_lines_without(text: Seq<u8>, byte: u8, from: int)
    requires
        without(text, byte),
        0 <= from <= text.len(),
    ensures
        forall|i: int|
            0 <= i < lines_from(text, from).len() ==> without(
                #[trigger] lines_from(text, from)[i],
                byte,
            ),
    decreases text.len() - from,
{
    if from < text.len() {
        lemma_line_end(text, from);
        let first = text.subrange(from, line_stop(text, from));
        lemma_part_without(text, byte, from, line_stop(text, from));
        lemma_lines_without(text, byte, next_line(text, from));
        let rest = lines_from(text, next_line(text, from));
        assert forall|i: int| 0 <= i < lines_from(text, from).len() implies without(
            #[trigger] lines_from(text, from)[i],
            byte,
        ) by {
            if i > 0 {
                assert(lines_from(text, from)[i] == rest[i - 1]);
            }
        }
    }
}

proof fn lemma_joined_lines_without(lines: Seq<Seq<u8>>, byte: u8, from: int, until: int)
    requires
        forall|i: int| 0 <= i < lines.len() ==> without(#[trigger] lines[i], byte),
        byte != 0x0a,
    ensures
        without(joined_lines(lines, from, until), byte),
    decreases until - from,
{
    lemma_block_literals();
    if !(from < 0 || from >= until || from >= lines.len()) {
        lemma_joined_lines_without(lines, byte, from + 1, until);
        lemma_joined_without(lines[from], lit("\n"), byte);
        lemma_joined_without(
            lines[from] + lit("\n"),
            joined_lines(lines, from + 1, until),
            byte,
        );
    }
}

/// In a file without `$` no text box holds a formula.
pub proof fn lemma_no_dollar_no_formula(text: Seq<u8>)
    requires
        without(text, 0x24),
    ensures
        !file_has_math(text),
{
    let lines = lines_of(text);
    let segments = segments_of(lines);
    lemma_lines_without(text, 0x24, 0);
    assert forall|at: int| 0 <= at < segments.len() implies !((#[trigger] segment_shape(
        lines,
        segments,
        at,
    )) is Ok && shape_has_math(segment_shape(lines, segments, at)->Ok_0)) by {
        let content = body_of(lines, segments[at].startline, segments[at].endline);
        lemma_joined_lines_without(lines, 0x24, segments[at].startline, segments[at].endline + 1);
        reveal(frame_of);
        crate::block::lemma_no_dollar_no_formula(content);
    }
}

/// Reading never fails on its own: a file whose headers describe a
/// document, and which holds no `$`, is always read into that document.
pub proof fn lemma_parse_is_total(text: Seq<u8>, created: int, result: Result<Document, ParseError>)
    requires
        parsed(text, created, result),
        document_of(text, created) is Ok,
        without(text, 0x24),
    ensures
        result is Ok,
{
    lemma_no_dollar_no_formula(text);
}

/// Reading one file twice gives one document: the same keys, the same
/// elements.
pub proof fn lemma_reparse(
    text: Seq<u8>,
    created: int,
    first: Result<Document, ParseError>,
    second: Result<Document, ParseError>,
)
    requires
        parsed(text, created, first),
        parsed(text, created, second),
        first is Ok,
        second is Ok,
    ensures
        first->Ok_0@ == second->Ok_0@,
{
}

proof fn lemma_plain_segments(lines: Seq<Seq<u8>>, at: int)
    requires
        0 <= at,
        forall|i: int| 0 <= i < lines.len() ==> !has_prefix(#[trigger] lines[i], lit("!!!")),
    ensures
        segments_from(lines, at, seq![leading_text()]) == seq![
            Segment { endline: lines.len() as int, ..leading_text() },
        ],
    decreases lines.len() - at,
{
    if at < lines.len() {
        assert(!has_prefix(lines[at], lit("!!!")));
        lemma_plain_segments(lines, at + 1);
    } else {
        assert(seq![leading_text()].update(
            0,
            Segment { endline: lines.len() as int, ..leading_text() },
        ) =~= seq![Segment { endline: lines.len() as int, ..leading_text() }]);
    }
}

/// A file none of whose lines begins with `!!!` is one text box with the
/// default coordinates, and its text is all the lines of the file.
pub proof fn lemma_plain_file(text: Seq<u8>, created: int)
    requires
        forall|i: int|
            0 <= i < lines_of(text).len() ==> !has_prefix(#[trigger] lines_of(text)[i], lit("!!!")),
    ensures
        document_of(text, created) == Ok::<Canvas, ParseError>(
            Canvas {
                elements: seq![
                    (
                        key_of(0, Segment { endline: lines_of(text).len() as int, ..leading_text() }),
                        Shape::TextBox {
                            x: -3500,
                            y: 300,
                            width: 7000,
                            data: blocks_of(
                                body_of(lines_of(text), 0, lines_of(text).len() as int),
                            ),
                            raw_content: body_of(lines_of(text), 0, lines_of(text).len() as int),
                        },
                    ),
                ],
                created,
            },
        ),
{
    let lines = lines_of(text);
    lemma_plain_segments(lines, 0);
    if lines.len() > 0 {
        assert(!has_prefix(lines[0], lit("!!!")));
    }
    let segments = segments_of(lines);
    reveal(elements_of);
    reveal(frame_of);
    assert(elements_of(lines, segments, 0) == Ok::<Seq<(Seq<u8>, Shape)>, ParseError>(
        Seq::empty(),
    ));
    assert(segments[0].properties.len() == 0);
}

/// Each entry of `inserted` is the entry put in or one that was there.
pub proof fn lemma_inserted_entries<V>(entries: Seq<(Seq<u8>, V)>, key: Seq<u8>, value: V, at: int)
    requires
        0 <= at < inserted(entries, key, value).len(),
    ensures
        inserted(entries, key, value)[at] == (key, value) || exists|before: int|
            0 <= before < entries.len() && entries[before] == inserted(entries, key, value)[at],
    decreases entries.len(),
{
    if entries.len() == 0 {
    } else if entries[0].0 == key {
        if at > 0 {
            assert(inserted(entries, key, value)[at] == entries[at]);
        }
    } else if precedes(key, entries[0].0) {
        if at > 0 {
            assert(inserted(entries, key, value)[at] == entries[at - 1]);
        }
    } else {
        if at == 0 {
            assert(inserted(entries, key, value)[at] == entries[0]);
        } else {
            let rest = entries.drop_first();
            lemma_inserted_entries(rest, key, value, at - 1);
            assert(inserted(entries, key, value)[at] == inserted(rest, key, value)[at - 1]);
            if inserted(rest, key, value)[at - 1] != (key, value) {
                let before = choose|before: int|
                    0 <= before < rest.len() && rest[before] == inserted(rest, key, value)[at - 1];
                assert(entries[before + 1] == rest[before]);
            }
        }
    }
}

/// Each element of a file is the element of one of its segments, under the
/// key of that segment.
pub proof fn lemma_elements_are_segments(
    lines: Seq<Seq<u8>>,
    segments: Seq<Segment>,
    count: int,
    at: int,
)
    requires
        0 <= count <= segments.len(),
        elements_of(lines, segments, count) is Ok,
        0 <= at < elements_of(lines, segments, count)->Ok_0.len(),
    ensures
        exists|from: int|
            0 <= from < count && #[trigger] segment_shape(lines, segments, from) == Ok::<
                Shape,
                ParseError,
            >(elements_of(lines, segments, count)->Ok_0[at].1) && elements_of(
                lines,
                segments,
                count,
            )->Ok_0[at].0 == key_of(from, segments[from]),
    decreases count,
{
    reveal(elements_of);
    if count > 0 {
        let found = elements_of(lines, segments, count - 1)->Ok_0;
        let shape = segment_shape(lines, segments, count - 1)->Ok_0;
        let key = key_of(count - 1, segments[count - 1]);
        let entry = inserted(found, key, shape)[at];
        lemma_inserted_entries(found, key, shape, at);
        if entry == (key, shape) {
            assert(segment_shape(lines, segments, count - 1) == Ok::<Shape, ParseError>(entry.1));
        } else {
            let before = choose|before: int| 0 <= before < found.len() && found[before] == entry;
            lemma_elements_are_segments(lines, segments, count - 1, before);
        }
    }
}

/// Every segment of a file has its element in the document: no element
/// takes the key of another.
pub proof fn lemma_one_element_each(lines: Seq<Seq<u8>>, segments: Seq<Segment>, count: int)
    requires
        0 <= count <= segments.len(),
        elements_of(lines, segments, count) is Ok,
    ensures
        elements_of(lines, segments, count)->Ok_0.len() == count,
    decreases count,
{
    reveal(elements_of);
    if count > 0 {
        lemma_one_element_each(lines, segments, count - 1);
        let found = elements_of(lines, segments, count - 1)->Ok_0;
        let shape = segment_shape(lines, segments, count - 1)->Ok_0;
        let key = key_of(count - 1, segments[count - 1]);
        assert forall|i: int| 0 <= i < found.len() implies (#[trigger] found[i]).0 != key by {
            lemma_elements_are_segments(lines, segments, count - 1, i);
            let from = choose|from: int|
                0 <= from < count - 1 && #[trigger] segment_shape(lines, segments, from) == Ok::<
                    Shape,
                    ParseError,
                >(found[i].1) && found[i].0 == key_of(from, segments[from]);
            lemma_keys_differ(from, segments[from], count - 1, segments[count - 1]);
        }
        lemma_new_key(found, key, shape);
    }
}

/// What is written for a text box of a file that was read is the header
/// line of its coordinates and, behind it, the lines that the file holds
/// for the box, each as it was read.
pub proof fn lemma_round_trip(text: Seq<u8>, created: int, at: int)
    requires
        document_of(text, created) is Ok,
        0 <= at < document_of(text, created)->Ok_0.elements.len(),
        document_of(text, created)->Ok_0.elements[at].1 is TextBox,
    ensures
        exists|from: int|
            0 <= from < segments_of(lines_of(text)).len() && repr_of(
                document_of(text, created)->Ok_0.elements[at].1,
            ) == header_line(header_of(document_of(text, created)->Ok_0.elements[at].1))
                + #[trigger] body_of(
                lines_of(text),
                segments_of(lines_of(text))[from].startline,
                segments_of(lines_of(text))[from].endline,
            ),
{
    let lines = lines_of(text);
    let segments = segments_of(lines);
    lemma_elements_are_segments(lines, segments, segments.len() as int, at);
    let from = choose|from: int|
        0 <= from < segments.len() && #[trigger] segment_shape(lines, segments, from) == Ok::<
            Shape,
            ParseError,
        >(elements_of(lines, segments, segments.len() as int)->Ok_0[at].1);
    reveal(frame_of);
    let content = body_of(lines, segments[from].startline, segments[from].endline);
    assert(repr_of(document_of(text, created)->Ok_0.elements[at].1) == header_line(
        header_of(document_of(text, created)->Ok_0.elements[at].1),
    ) + content);
}

/// The blocks of a text box that was read are the blocks of the text that
/// is kept for it.
pub proof fn lemma_blocks_are_of_the_kept_text(text: Seq<u8>, created: int, at: int)
    requires
        document_of(text, created) is Ok,
        0 <= at < document_of(text, created)->Ok_0.elements.len(),
        document_of(text, created)->Ok_0.elements[at].1 is TextBox,
    ensures
        document_of(text, created)->Ok_0.elements[at].1->TextBox_data == blocks_of(
            document_of(text, created)->Ok_0.elements[at].1->TextBox_raw_content,
        ),
{
    let lines = lines_of(text);
    let segments = segments_of(lines);
    lemma_elements_are_segments(lines, segments, segments.len() as int, at);
    reveal(frame_of);
}

proof fn lemma_segments_begin(lines: Seq<Seq<u8>>, at: int, found: Seq<Segment>)
    requires
        0 <= at,
        forall|i: int| 0 <= i < found.len() ==> (#[trigger] found[i]).startline >= 0,
    ensures
        forall|i: int|
            0 <= i < segments_from(lines, at, found).len() ==> (#[trigger] segments_from(
                lines,
                at,
                found,
            )[i]).startline >= 0,
    decreases lines.len() - at,
{
    if at < lines.len() && header_kind(lines[at]) is Some {
        let closed = closed_at(found, line_before(at));
        let next = closed.push(opened(lines[at], at));
        assert forall|i: int| 0 <= i < next.len() implies (#[trigger] next[i]).startline >= 0 by {
            if i < found.len() {
                assert(closed[i].startline == found[i].startline);
            }
        }
        lemma_segments_begin(lines, at + 1, next);
        assert(segments_from(lines, at, found) == segments_from(lines, at + 1, next));
    } else if at < lines.len() {
        lemma_segments_begin(lines, at + 1, found);
        assert(segments_from(lines, at, found) == segments_from(lines, at + 1, found));
    } else {
        let closed = closed_at(found, lines.len() as int);
        assert forall|i: int| 0 <= i < closed.len() implies (#[trigger] closed[i]).startline
            >= 0 by {
            assert(closed[i].startline == found[i].startline);
        }
        assert(segments_from(lines, at, found) == closed);
    }
}

/// In a file that ends each of its lines with a line feed alone, the text
/// that is kept for a text box, and written back behind its header line, is
/// a piece of the file itself, byte for byte.
pub proof fn lemma_kept_text_is_of_the_file(text: Seq<u8>, created: int, at: int)
    requires
        document_of(text, created) is Ok,
        0 <= at < document_of(text, created)->Ok_0.elements.len(),
        document_of(text, created)->Ok_0.elements[at].1 is TextBox,
        without(text, 0x0d),
        text.len() > 0 ==> text.last() == 0x0a,
    ensures
        exists|from: int, to: int|
            0 <= from <= to <= text.len() && document_of(
                text,
                created,
            )->Ok_0.elements[at].1->TextBox_raw_content == #[trigger] text.subrange(from, to),
{
    let lines = lines_of(text);
    let segments = segments_of(lines);
    lemma_elements_are_segments(lines, segments, segments.len() as int, at);
    let index = choose|index: int|
        0 <= index < segments.len() && #[trigger] segment_shape(lines, segments, index) == Ok::<
            Shape,
            ParseError,
        >(elements_of(lines, segments, segments.len() as int)->Ok_0[at].1);
    reveal(frame_of);
    if lines.len() > 0 && header_kind(lines[0]) is Some {
        lemma_segments_begin(lines, 0, Seq::empty());
    } else {
        lemma_segments_begin(lines, 0, seq![leading_text()]);
    }
    let startline = segments[index].startline;
    let endline = segments[index].endline;
    lemma_body_is_slice(lines, startline, endline);
    lemma_file_is_its_lines(text, 0);
    assert(text.skip(0) =~= text);
    let from = line_offset(lines, line_within(lines, startline));
    let until = if line_within(lines, endline + 1) < line_within(lines, startline) {
        line_within(lines, startline)
    } else {
        line_within(lines, endline + 1)
    };
    let to = line_offset(lines, until);
    assert(document_of(text, created)->Ok_0.elements[at].1->TextBox_raw_content == text.subrange(
        from,
        to,
    ));
}

} // verus!
