//! Numbers as the file writes them.
//!
//! A coordinate is a decimal number with one digit behind the point. It is
//! held as a count of tenths, so `-55.0` is `-550`.

use vstd::prelude::*;
use vstd::string::{StringExecFns, StringSliceAdditionalSpecFns};
use vstd::utf8::{encode_utf8, is_ascii_chars_encode_utf8};

use crate::block::lemma_encode_joined;
use crate::text::lit;

verus! {

/// `byte` is one of `0` to `9`.
pub open spec fn is_digit(byte: u8) -> bool {
    0x30 <= byte <= 0x39
}

/// Every byte of `text` is a digit.
pub open spec fn all_digits(text: Seq<u8>) -> bool {
    forall|i: int| 0 <= i < text.len() ==> is_digit(#[trigger] text[i])
}

/// The number that the digits `text` write.
pub open spec fn digits_value(text: Seq<u8>) -> nat
    decreases text.len(),
{
    if text.len() == 0 {
        0
    } else {
        digits_value(text.drop_last()) * 10 + (text.last() - 0x30) as nat
    }
}

/// The digits of a text are worth at least what its first `count` are.
pub proof fn lemma_digits_grow(text: Seq<u8>, count: int)
    requires
        all_digits(text),
        0 <= count <= text.len(),
    ensures
        digits_value(text.take(count)) <= digits_value(text),
    decreases text.len() - count,
{
    if count < text.len() {
        lemma_digits_grow(text, count + 1);
        assert(text.take(count + 1).drop_last() =~= text.take(count));
    } else {
        assert(text.take(count) =~= text);
    }
}

/// Whether `text` begins with a sign, and with which: -1, 1, or 0 for none.
pub open spec fn sign_of(text: Seq<u8>) -> int {
    if text.len() > 0 && text[0] == 0x2d {
        -1
    } else if text.len() > 0 && text[0] == 0x2b {
        1
    } else {
        0
    }
}

/// `text` without its sign.
pub open spec fn unsigned(text: Seq<u8>) -> Seq<u8> {
    if sign_of(text) == 0 {
        text
    } else {
        text.skip(1)
    }
}

/// The whole number that `text` writes: an optional sign and one or more
/// digits, nothing else.
pub open spec fn integer_of(text: Seq<u8>) -> Option<int> {
    let digits = unsigned(text);
    if digits.len() > 0 && all_digits(digits) {
        if sign_of(text) == -1 {
            Some(-(digits_value(digits) as int))
        } else {
            Some(digits_value(digits) as int)
        }
    } else {
        None
    }
}

/// Where the digits end that begin at `from`.
pub open spec fn digits_end(text: Seq<u8>, from: int) -> int
    decreases text.len() - from,
{
    if from < 0 || from >= text.len() || !is_digit(text[from]) {
        from
    } else {
        digits_end(text, from + 1)
    }
}

/// The digits that begin at `from` are digits, and end inside the text.
pub proof fn lemma_digits_end(text: Seq<u8>, from: int)
    requires
        0 <= from <= text.len(),
    ensures
        from <= digits_end(text, from) <= text.len(),
        all_digits(text.subrange(from, digits_end(text, from))),
        digits_end(text, from) < text.len() ==> !is_digit(text[digits_end(text, from)]),
    decreases text.len() - from,
{
    if from < text.len() && is_digit(text[from]) {
        lemma_digits_end(text, from + 1);
        let end = digits_end(text, from);
        assert forall|i: int| 0 <= i < end - from implies is_digit(
            #[trigger] text.subrange(from, end)[i],
        ) by {
            if i > 0 {
                assert(text.subrange(from, end)[i] == text.subrange(from + 1, end)[i - 1]);
            }
        }
    }
}

/// The count of tenths that `text` writes: an optional sign, digits, and
/// optionally a point with digits behind it, with a digit on at least one
/// side of the point. Of the digits behind the point the first counts; the
/// second rounds it, up from 5 on.
pub open spec fn tenths_of(text: Seq<u8>) -> Option<int> {
    let body = unsigned(text);
    let point = digits_end(body, 0);
    let whole = body.take(point);
    if point == body.len() {
        if whole.len() > 0 {
            Some(signed(text, (digits_value(whole) * 10) as int))
        } else {
            None
        }
    } else if body[point] == 0x2e {
        let fraction = body.skip(point + 1);
        if all_digits(fraction) && whole.len() + fraction.len() > 0 {
            Some(signed(text, digits_value(whole) * 10 + rounded_tenth(fraction)))
        } else {
            None
        }
    } else {
        None
    }
}

/// `magnitude` with the sign that `text` begins with.
pub open spec fn signed(text: Seq<u8>, magnitude: int) -> int {
    if sign_of(text) == -1 {
        -magnitude
    } else {
        magnitude
    }
}

/// The tenths that the digits behind a point are worth, from 0 to 10.
pub open spec fn rounded_tenth(fraction: Seq<u8>) -> int {
    let first = if fraction.len() > 0 {
        fraction[0] - 0x30
    } else {
        0
    };
    let up = if fraction.len() > 1 && fraction[1] >= 0x35 {
        1int
    } else {
        0int
    };
    first + up
}

/// The number that the digits from `from` to `end` write, as far as it stays
/// under `limit`; `None` where it does not.
fn read_digits(bytes: &[u8], from: usize, end: usize, limit: u64) -> (value: Option<u64>)
    requires
        from <= end <= bytes.len(),
        all_digits(bytes@.subrange(from as int, end as int)),
        limit <= u64::MAX / 10 - 1,
    ensures
        match value {
            Some(value) => value == digits_value(bytes@.subrange(from as int, end as int))
                && value <= limit,
            None => digits_value(bytes@.subrange(from as int, end as int)) > limit,
        },
{
    let ghost digits = bytes@.subrange(from as int, end as int);
    let mut value: u64 = 0;
    let mut at = from;
    assert(digits.take(0) =~= Seq::<u8>::empty());
    while at < end
        invariant
            from <= at <= end <= bytes.len(),
            digits == bytes@.subrange(from as int, end as int),
            all_digits(digits),
            value == digits_value(digits.take(at - from)),
            value <= limit,
            limit <= u64::MAX / 10 - 1,
        decreases end - at,
    {
        let digit = bytes[at];
        proof {
            assert(digits[at - from] == bytes@[at as int]);
            assert(is_digit(digits[at - from]));
            assert(digits.take(at - from + 1).drop_last() =~= digits.take(at - from));
            lemma_digits_grow(digits, at - from + 1);
        }
        value = value * 10 + (digit - 0x30) as u64;
        at = at + 1;
        if value > limit {
            return None;
        }
    }
    assert(digits.take(end - from) =~= digits);
    Some(value)
}

/// Where the digits end that begin at byte `from`.
fn find_digits_end(bytes: &[u8], from: usize) -> (end: usize)
    requires
        from <= bytes.len(),
    ensures
        end == digits_end(bytes@, from as int),
        from <= end <= bytes.len(),
{
    let mut at = from;
    proof {
        lemma_digits_end(bytes@, from as int);
    }
    while at < bytes.len() && 0x30 <= bytes[at] && bytes[at] <= 0x39
        invariant
            from <= at <= bytes.len(),
            digits_end(bytes@, from as int) == digits_end(bytes@, at as int),
        decreases bytes.len() - at,
    {
        at = at + 1;
    }
    at
}

/// Reads a whole number of 32 bits: an optional sign and one or more
/// digits. `None` for any other text, and for a number out of range.
pub fn read_integer(text: &str) -> (value: Option<i32>)
    ensures
        match value {
            Some(value) => integer_of(text.spec_bytes()) == Some(value as int),
            None => match integer_of(text.spec_bytes()) {
                Some(value) => value < i32::MIN || value > i32::MAX,
                None => true,
            },
        },
{
    let bytes = text.as_bytes();
    let start: usize = if bytes.len() > 0 && (bytes[0] == 0x2d || bytes[0] == 0x2b) {
        1
    } else {
        0
    };
    let negative = bytes.len() > 0 && bytes[0] == 0x2d;
    let end = find_digits_end(bytes, start);
    proof {
        lemma_digits_end(bytes@, start as int);
        assert(unsigned(bytes@) =~= bytes@.subrange(start as int, bytes.len() as int));
        if end < bytes.len() {
            assert(unsigned(bytes@)[end - start] == bytes@[end as int]);
        }
    }
    if end != bytes.len() || end == start {
        return None;
    }
    match read_digits(bytes, start, end, 0x8000_0000) {
        Some(magnitude) => {
            if negative {
                Some((-(magnitude as i64)) as i32)
            } else if magnitude <= 0x7fff_ffff {
                Some(magnitude as i32)
            } else {
                None
            }
        },
        None => None,
    }
}

/// Reads a coordinate as a count of tenths: `370`, `370.0`, `-55.04`, `.5`.
/// `None` for any other text, and for a count out of range.
pub fn read_tenths(text: &str) -> (value: Option<i64>)
    ensures
        match value {
            Some(value) => tenths_of(text.spec_bytes()) == Some(value as int),
            None => match tenths_of(text.spec_bytes()) {
                Some(value) => value < i64::MIN || value > i64::MAX,
                None => true,
            },
        },
{
    let bytes = text.as_bytes();
    let start: usize = if bytes.len() > 0 && (bytes[0] == 0x2d || bytes[0] == 0x2b) {
        1
    } else {
        0
    };
    let negative = bytes.len() > 0 && bytes[0] == 0x2d;
    let point = find_digits_end(bytes, start);
    let ghost body = unsigned(bytes@);
    proof {
        lemma_digits_end(bytes@, start as int);
        assert(body =~= bytes@.subrange(start as int, bytes.len() as int));
        lemma_same_digits_end(bytes@, start as int, 0);
        assert(body.take(point - start) =~= bytes@.subrange(start as int, point as int));
        if point < bytes.len() {
            assert(body[point - start] == bytes@[point as int]);
        }
    }
    let mut fraction_end = point;
    let mut tenth: u64 = 0;
    if point < bytes.len() {
        if bytes[point] != 0x2e {
            return None;
        }
        fraction_end = find_digits_end(bytes, point + 1);
        proof {
            lemma_digits_end(bytes@, point + 1);
            let fraction = body.skip(point - start + 1);
            assert(fraction =~= bytes@.subrange(point + 1, bytes.len() as int));
            if fraction_end < bytes.len() {
                assert(fraction[fraction_end - point - 1] == bytes@[fraction_end as int]);
            } else {
                assert(fraction =~= bytes@.subrange(point + 1, fraction_end as int));
            }
        }
        if fraction_end != bytes.len() {
            return None;
        }
        if fraction_end - point > 1 {
            proof {
                let fraction = body.skip(point - start + 1);
                assert(fraction[0] == bytes@[point + 1]);
                assert(is_digit(fraction[0]));
                if fraction_end - point > 2 {
                    assert(fraction[1] == bytes@[point + 2]);
                }
            }
            tenth = (bytes[point + 1] - 0x30) as u64;
            if fraction_end - point > 2 && bytes[point + 2] >= 0x35 {
                tenth = tenth + 1;
            }
        }
        assert(tenth == rounded_tenth(body.skip(point - start + 1)));
    }
    assert(point - start == digits_end(body, 0));
    if point == start && fraction_end <= point + 1 {
        return None;
    }
    match read_digits(bytes, start, point, 1_000_000_000_000_000_000) {
        Some(whole) => {
            let magnitude = whole * 10 + tenth;
            if negative && magnitude == 0x8000_0000_0000_0000 {
                Some(i64::MIN)
            } else if magnitude > 0x7fff_ffff_ffff_ffff {
                None
            } else if negative {
                Some(-(magnitude as i64))
            } else {
                Some(magnitude as i64)
            }
        },
        None => None,
    }
}

/// Digits end at the same byte whether counted in the text or in what is
/// left of it behind `start`.
proof fn lemma_same_digits_end(text: Seq<u8>, start: int, from: int)
    requires
        0 <= start <= text.len(),
        0 <= from <= text.len() - start,
    ensures
        digits_end(text.skip(start), from) + start == digits_end(text, start + from),
    decreases text.len() - start - from,
{
    let tail = text.skip(start);
    if from < tail.len() {
        assert(tail[from] == text[start + from]);
        if is_digit(tail[from]) {
            lemma_same_digits_end(text, start, from + 1);
        }
    }
}

// ---------------------------------------------------------------- writing

/// The digits, in base `base`, that write `value`.
pub open spec fn digits_text(value: nat, base: nat) -> Seq<u8>
    decreases value,
{
    if base < 2 || value < base {
        seq![digit_byte(value)]
    } else {
        proof {
            assert(value / base < value) by (nonlinear_arith)
                requires
                    base >= 2,
                    value >= base,
            ;
        }
        digits_text(value / base, base) + seq![digit_byte(value % base)]
    }
}

/// The character for one digit: `0` to `9`, then `a` to `f`.
pub open spec fn digit_byte(digit: nat) -> u8 {
    if digit < 10 {
        (0x30 + digit) as u8
    } else {
        (0x57 + digit) as u8
    }
}

/// The text of a count of tenths: `-550` is written `-55.0`.
pub open spec fn tenths_text(tenths: int) -> Seq<u8> {
    let magnitude = if tenths < 0 {
        (-tenths) as nat
    } else {
        tenths as nat
    };
    let sign = if tenths < 0 {
        seq![0x2du8]
    } else {
        Seq::<u8>::empty()
    };
    sign + digits_text(magnitude / 10, 10) + seq![0x2eu8] + digits_text(magnitude % 10, 10)
}

/// The text of a whole number.
pub open spec fn integer_text(value: int) -> Seq<u8> {
    if value < 0 {
        seq![0x2du8] + digits_text((-value) as nat, 10)
    } else {
        digits_text(value as nat, 10)
    }
}

/// The character for one digit.
fn digit_str(digit: u64) -> (text: &'static str)
    requires
        digit < 16,
    ensures
        text.spec_bytes() == seq![digit_byte(digit as nat)],
{
    let text = if digit == 0 {
        "0"
    } else if digit == 1 {
        "1"
    } else if digit == 2 {
        "2"
    } else if digit == 3 {
        "3"
    } else if digit == 4 {
        "4"
    } else if digit == 5 {
        "5"
    } else if digit == 6 {
        "6"
    } else if digit == 7 {
        "7"
    } else if digit == 8 {
        "8"
    } else if digit == 9 {
        "9"
    } else if digit == 10 {
        "a"
    } else if digit == 11 {
        "b"
    } else if digit == 12 {
        "c"
    } else if digit == 13 {
        "d"
    } else if digit == 14 {
        "e"
    } else {
        "f"
    };
    proof {
        reveal_strlit("0");
        reveal_strlit("1");
        reveal_strlit("2");
        reveal_strlit("3");
        reveal_strlit("4");
        reveal_strlit("5");
        reveal_strlit("6");
        reveal_strlit("7");
        reveal_strlit("8");
        reveal_strlit("9");
        reveal_strlit("a");
        reveal_strlit("b");
        reveal_strlit("c");
        reveal_strlit("d");
        reveal_strlit("e");
        reveal_strlit("f");
        is_ascii_chars_encode_utf8(text@);
        assert(text.spec_bytes() =~= seq![digit_byte(digit as nat)]);
    }
    text
}

/// Appends `text` to `out`.
pub fn push_str(out: &mut String, text: &str)
    ensures
        encode_utf8(final(out)@) == encode_utf8(old(out)@) + text.spec_bytes(),
        final(out)@ == old(out)@ + text@,
{
    proof {
        lemma_encode_joined(out@, text@);
    }
    out.append(text);
}

/// Appends the digits of `value`, in base 10 or 16, to `out`.
pub fn push_digits(out: &mut String, value: u64, base: u64)
    requires
        base == 10 || base == 16,
    ensures
        encode_utf8(final(out)@) == encode_utf8(old(out)@) + digits_text(
            value as nat,
            base as nat,
        ),
    decreases value,
{
    if value < base {
        push_str(out, digit_str(value));
    } else {
        push_digits(out, value / base, base);
        push_str(out, digit_str(value % base));
        assert(encode_utf8(old(out)@) + digits_text((value / base) as nat, base as nat) + seq![
            digit_byte((value % base) as nat),
        ] =~= encode_utf8(old(out)@) + digits_text(value as nat, base as nat));
    }
}

/// `value` without its sign.
fn magnitude_of(value: i64) -> (magnitude: u64)
    ensures
        magnitude == if value < 0 {
            -(value as int)
        } else {
            value as int
        },
{
    if value >= 0 {
        value as u64
    } else if value == i64::MIN {
        0x8000_0000_0000_0000
    } else {
        (-value) as u64
    }
}

/// Appends a count of tenths to `out`, written with one digit behind the
/// point.
pub fn push_tenths(out: &mut String, tenths: i64)
    ensures
        encode_utf8(final(out)@) == encode_utf8(old(out)@) + tenths_text(tenths as int),
{
    let magnitude: u64 = magnitude_of(tenths);
    proof {
        lemma_literals();
    }
    if tenths < 0 {
        push_str(out, "-");
    }
    push_digits(out, magnitude / 10, 10);
    push_str(out, ".");
    push_digits(out, magnitude % 10, 10);
    assert(encode_utf8(out@) =~= encode_utf8(old(out)@) + tenths_text(tenths as int));
}

/// Appends a whole number to `out`.
pub fn push_integer(out: &mut String, value: i32)
    ensures
        encode_utf8(final(out)@) == encode_utf8(old(out)@) + integer_text(value as int),
{
    let magnitude: u64 = magnitude_of(value as i64);
    proof {
        lemma_literals();
    }
    if value < 0 {
        push_str(out, "-");
    }
    push_digits(out, magnitude, 10);
    assert(encode_utf8(out@) =~= encode_utf8(old(out)@) + integer_text(value as int));
}

/// The bytes of `-` and `.`.
pub proof fn lemma_literals()
    ensures
        lit("-") == seq![0x2du8],
        lit(".") == seq![0x2eu8],
{
    reveal_strlit("-");
    reveal_strlit(".");
    is_ascii_chars_encode_utf8("-"@);
    is_ascii_chars_encode_utf8("."@);
    assert(lit("-") =~= seq![0x2du8]);
    assert(lit(".") =~= seq![0x2eu8]);
}

// ------------------------------------------------------------------- laws

/// The decimal digits of a number are digits, and write that number.
pub proof fn lemma_digits_read_back(value: nat)
    ensures
        digits_text(value, 10).len() >= 1,
        all_digits(digits_text(value, 10)),
        digits_value(digits_text(value, 10)) == value,
    decreases value,
{
    let text = digits_text(value, 10);
    if value < 10 {
        assert(text.drop_last() =~= Seq::<u8>::empty());
        assert(digits_value(text.drop_last()) == 0);
    } else {
        assert(value / 10 < value) by (nonlinear_arith)
            requires
                value >= 10,
        ;
        lemma_digits_read_back(value / 10);
        let head = digits_text(value / 10, 10);
        assert(text.drop_last() =~= head);
        assert forall|i: int| 0 <= i < text.len() implies is_digit(#[trigger] text[i]) by {
            if i < head.len() {
                assert(text[i] == head[i]);
            }
        }
    }
}

/// Digits that run up to `end`, where something else stands, end there.
pub proof fn lemma_digits_end_at(text: Seq<u8>, from: int, end: int)
    requires
        0 <= from <= end <= text.len(),
        forall|i: int| from <= i < end ==> is_digit(#[trigger] text[i]),
        end < text.len() ==> !is_digit(text[end]),
    ensures
        digits_end(text, from) == end,
    decreases end - from,
{
    if from < end {
        lemma_digits_end_at(text, from + 1, end);
    }
}

/// What is written for a count of tenths reads back as that count.
pub proof fn lemma_tenths_read_back(tenths: int)
    ensures
        tenths_of(tenths_text(tenths)) == Some(tenths),
{
    let magnitude = if tenths < 0 {
        (-tenths) as nat
    } else {
        tenths as nat
    };
    let whole = digits_text(magnitude / 10, 10);
    let last = digits_text(magnitude % 10, 10);
    lemma_digits_read_back(magnitude / 10);
    lemma_digits_read_back(magnitude % 10);
    let text = tenths_text(tenths);
    let body = whole + seq![0x2eu8] + last;
    assert(last =~= seq![digit_byte(magnitude % 10)]);
    if tenths < 0 {
        assert(text[0] == 0x2d);
        assert(unsigned(text) =~= body);
    } else {
        assert(text =~= body);
        assert(text[0] == whole[0]);
        assert(is_digit(whole[0]));
    }
    assert forall|i: int| 0 <= i < whole.len() implies is_digit(#[trigger] body[i]) by {
        assert(body[i] == whole[i]);
    }
    assert(body[whole.len() as int] == 0x2e);
    lemma_digits_end_at(body, 0, whole.len() as int);
    assert(body.take(whole.len() as int) =~= whole);
    assert(body.skip(whole.len() as int + 1) =~= last);
}

/// What is written for a whole number reads back as that number.
pub proof fn lemma_integer_read_back(value: int)
    ensures
        integer_of(integer_text(value)) == Some(value),
{
    let magnitude = if value < 0 {
        (-value) as nat
    } else {
        value as nat
    };
    let digits = digits_text(magnitude, 10);
    lemma_digits_read_back(magnitude);
    let text = integer_text(value);
    if value < 0 {
        assert(text[0] == 0x2d);
        assert(unsigned(text) =~= digits);
    } else {
        assert(text =~= digits);
        assert(is_digit(digits[0]));
    }
}

} // verus!
