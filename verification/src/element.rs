//! The elements of the canvas and the text that the file holds for each.

use vstd::prelude::*;
use vstd::string::{StringSliceAdditionalSpecFns, StrSliceExecFns};
use vstd::utf8::{encode_utf8, encode_utf8_decode_utf8, is_ascii_chars_encode_utf8};

use crate::number::{integer_text, push_integer, push_str, push_tenths, tenths_text};
use crate::text::{lit, spelled};
use crate::tree::{blocks_view, Block, TextBlock};

verus! {

/// One positioned object of the canvas. Coordinates and sizes are counts of
/// tenths of a unit.
#[derive(Debug, PartialEq, Eq)]
pub enum Element {
    Line { x1: i64, y1: i64, x2: i64, y2: i64 },
    Rect { x: i64, y: i64, width: i64, height: i64, z: i32, color: String },
    TextBox {
        x: i64,
        y: i64,
        width: i64,
        /// The blocks that `raw_content` parses to.
        data: Vec<TextBlock>,
        /// The text of the box as the file has it, kept so that it is
        /// written back unchanged.
        raw_content: String,
    },
}

/// What an `Element` stands for.
pub enum Shape {
    Line { x1: int, y1: int, x2: int, y2: int },
    Rect { x: int, y: int, width: int, height: int, z: int, color: Seq<u8> },
    TextBox { x: int, y: int, width: int, data: Seq<Block>, raw_content: Seq<u8> },
}

impl View for Element {
    type V = Shape;

    open spec fn view(&self) -> Shape {
        match *self {
            Element::Line { x1, y1, x2, y2 } => Shape::Line {
                x1: x1 as int,
                y1: y1 as int,
                x2: x2 as int,
                y2: y2 as int,
            },
            Element::Rect { x, y, width, height, z, color } => Shape::Rect {
                x: x as int,
                y: y as int,
                width: width as int,
                height: height as int,
                z: z as int,
                color: encode_utf8(color@),
            },
            Element::TextBox { x, y, width, data, raw_content } => Shape::TextBox {
                x: x as int,
                y: y as int,
                width: width as int,
                data: blocks_view(data@),
                raw_content: encode_utf8(raw_content@),
            },
        }
    }
}

/// The width to which a header line is filled with `!`.
pub const HEADER_WIDTH: usize = 80;

/// `count` times `!`.
pub open spec fn bangs(count: int) -> Seq<u8> {
    Seq::new(
        if count < 0 {
            0
        } else {
            count as nat
        },
        |i: int| 0x21u8,
    )
}

/// `header` filled with `!` to 80 characters, and a line feed.
pub open spec fn header_line(header: Seq<u8>) -> Seq<u8> {
    header + bangs(HEADER_WIDTH - spelled(header).len()) + lit("\n")
}

/// The type and the properties of `shape` as its header line begins.
pub open spec fn header_of(shape: Shape) -> Seq<u8> {
    match shape {
        Shape::Line { x1, y1, x2, y2 } => lit("!!!!Line!x1:") + tenths_text(x1) + lit("!y1:")
            + tenths_text(y1) + lit("!x2:") + tenths_text(x2) + lit("!y2:") + tenths_text(y2),
        Shape::Rect { x, y, width, height, z, color } => lit("!!!!Rect!x:") + tenths_text(x) + lit(
            "!y:",
        ) + tenths_text(y) + lit("!width:") + tenths_text(width) + lit("!height:") + tenths_text(
            height,
        ) + lit("!z:") + integer_text(z) + lit("!color:") + color,
        Shape::TextBox { x, y, width, .. } => lit("!!!!Text!x:") + tenths_text(x) + lit("!y:")
            + tenths_text(y) + lit("!width:") + tenths_text(width),
    }
}

/// The text that the file holds for `shape`: its header line and, for a
/// text box, the text of the box as it was read.
pub open spec fn repr_of(shape: Shape) -> Seq<u8> {
    match shape {
        Shape::TextBox { raw_content, .. } => header_line(header_of(shape)) + raw_content,
        _ => header_line(header_of(shape)),
    }
}

/// Fills the header in `out` with `!` to 80 characters and ends the line.
fn end_header(out: &mut String)
    ensures
        encode_utf8(final(out)@) == header_line(encode_utf8(old(out)@)),
{
    let ghost header = encode_utf8(out@);
    proof {
        encode_utf8_decode_utf8(out@);
        reveal_strlit("!");
        is_ascii_chars_encode_utf8("!"@);
        assert(lit("!") =~= seq![0x21u8]);
    }
    let mut width = out.as_str().unicode_len();
    let ghost start = width;
    assert(encode_utf8(out@) =~= header + bangs(0));
    while width < HEADER_WIDTH
        invariant
            start <= width,
            width <= HEADER_WIDTH || width == start,
            lit("!") == seq![0x21u8],
            encode_utf8(out@) == header + bangs(width - start),
        decreases HEADER_WIDTH - width,
    {
        push_str(out, "!");
        width = width + 1;
        assert(header + bangs(width - start - 1) + seq![0x21u8] =~= header + bangs(width - start));
    }
    push_str(out, "\n");
}

impl Element {
    /// The text that the file holds for the element: a header line with the
    /// type and the properties, filled with `!` to 80 characters, and for a
    /// text box the text of the box as it was read.
    pub fn write_repr(&self) -> (text: String)
        ensures
            encode_utf8(text@) == repr_of(self@),
    {
        let mut out = String::new();
        assert(encode_utf8(out@) =~= Seq::<u8>::empty());
        match self {
            Element::Line { x1, y1, x2, y2 } => {
                push_str(&mut out, "!!!!Line!x1:");
                push_tenths(&mut out, *x1);
                push_str(&mut out, "!y1:");
                push_tenths(&mut out, *y1);
                push_str(&mut out, "!x2:");
                push_tenths(&mut out, *x2);
                push_str(&mut out, "!y2:");
                push_tenths(&mut out, *y2);
                assert(encode_utf8(out@) =~= header_of(self@));
                end_header(&mut out);
            },
            Element::Rect { x, y, width, height, z, color } => {
                push_str(&mut out, "!!!!Rect!x:");
                push_tenths(&mut out, *x);
                push_str(&mut out, "!y:");
                push_tenths(&mut out, *y);
                push_str(&mut out, "!width:");
                push_tenths(&mut out, *width);
                push_str(&mut out, "!height:");
                push_tenths(&mut out, *height);
                push_str(&mut out, "!z:");
                push_integer(&mut out, *z);
                push_str(&mut out, "!color:");
                push_str(&mut out, color.as_str());
                assert(encode_utf8(out@) =~= header_of(self@));
                end_header(&mut out);
            },
            Element::TextBox { x, y, width, data: _, raw_content } => {
                push_str(&mut out, "!!!!Text!x:");
                push_tenths(&mut out, *x);
                push_str(&mut out, "!y:");
                push_tenths(&mut out, *y);
                push_str(&mut out, "!width:");
                push_tenths(&mut out, *width);
                assert(encode_utf8(out@) =~= header_of(self@));
                end_header(&mut out);
                push_str(&mut out, raw_content.as_str());
            },
        }
        out
    }
}

} // verus!
