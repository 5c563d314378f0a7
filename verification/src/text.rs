//! Searching and cutting UTF-8 text by byte offsets.
//!
//! A text is modelled by the sequence of its UTF-8 bytes. Every cut made here
//! falls between two characters, which is what lets the pieces stay `&str`.

use vstd::prelude::*;
use vstd::string::StringSliceAdditionalSpecFns;
use vstd::utf8::*;

verus! {

/// `at` lies between two characters of `bytes` (or at either end).
pub open spec fn boundary(bytes: Seq<u8>, at: int) -> bool {
    &&& 0 <= at <= bytes.len()
    &&& at < bytes.len() ==> !is_continuation_byte(bytes[at])
}

/// `pattern` stands in `text` at offset `at`.
pub open spec fn occurs_at(text: Seq<u8>, pattern: Seq<u8>, at: int) -> bool {
    &&& 0 <= at
    &&& at + pattern.len() <= text.len()
    &&& text.subrange(at, at + pattern.len()) == pattern
}

/// `at` is the leftmost offset at which `pattern` stands in `text`.
pub open spec fn leftmost(text: Seq<u8>, pattern: Seq<u8>, at: int) -> bool {
    &&& occurs_at(text, pattern, at)
    &&& forall|earlier: int| 0 <= earlier < at ==> !occurs_at(text, pattern, earlier)
}

/// The leftmost offset at which `pattern` stands in `text`, if it does.
pub open spec fn first_occurrence(text: Seq<u8>, pattern: Seq<u8>) -> Option<int> {
    if exists|at: int| leftmost(text, pattern, at) {
        Some(choose|at: int| leftmost(text, pattern, at))
    } else {
        None
    }
}

/// The bytes of a string literal.
pub open spec fn lit(literal: &str) -> Seq<u8> {
    literal.spec_bytes()
}

/// The characters that the UTF-8 text `bytes` spells.
pub open spec fn spelled(bytes: Seq<u8>) -> Seq<char> {
    decode_utf8(bytes)
}

/// `text` begins with `prefix`.
pub open spec fn has_prefix(text: Seq<u8>, prefix: Seq<u8>) -> bool {
    occurs_at(text, prefix, 0)
}

/// What stands before and after the leftmost `delimiter` in `text`.
pub open spec fn split_at_first(text: Seq<u8>, delimiter: Seq<u8>) -> Option<(Seq<u8>, Seq<u8>)> {
    match first_occurrence(text, delimiter) {
        Some(at) => Some(
            (text.subrange(0, at), text.subrange(at + delimiter.len(), text.len() as int)),
        ),
        None => None,
    }
}

/// As `split_at_first`, with the whole text and an empty rest where the
/// delimiter is missing.
pub open spec fn split_or_rest(text: Seq<u8>, delimiter: Seq<u8>) -> (Seq<u8>, Seq<u8>) {
    match split_at_first(text, delimiter) {
        Some(parts) => parts,
        None => (text, Seq::empty()),
    }
}

/// In well-formed UTF-8 the library's `boundary` is vstd's `is_char_boundary`.
pub proof fn lemma_boundary(bytes: Seq<u8>, at: int)
    requires
        valid_utf8(bytes),
    ensures
        boundary(bytes, at) <==> is_char_boundary(bytes, at),
{
    if 0 <= at < bytes.len() {
        is_char_boundary_iff_not_is_continuation_byte(bytes, at);
    } else if at == bytes.len() {
        is_char_boundary_start_end_of_seq(bytes);
    } else if bytes.len() == 0 {
    } else {
        lemma_beyond_is_no_boundary(bytes, at);
    }
}

proof fn lemma_beyond_is_no_boundary(bytes: Seq<u8>, at: int)
    requires
        valid_utf8(bytes),
        at < 0 || at > bytes.len(),
    ensures
        !is_char_boundary(bytes, at),
    decreases bytes.len(),
{
    if at > bytes.len() && bytes.len() > 0 {
        let step = length_of_first_scalar(bytes);
        assert(1 <= step <= bytes.len());
        lemma_beyond_is_no_boundary(pop_first_scalar(bytes), at - step);
    }
}

/// The pieces on both sides of a boundary are well-formed UTF-8 again.
pub proof fn lemma_cut_is_valid(bytes: Seq<u8>, from: int, to: int)
    requires
        valid_utf8(bytes),
        boundary(bytes, from),
        boundary(bytes, to),
        from <= to,
    ensures
        valid_utf8(bytes.subrange(from, to)),
        valid_utf8(bytes.subrange(0, to)),
        valid_utf8(bytes.subrange(from, bytes.len() as int)),
{
    lemma_boundary(bytes, from);
    lemma_boundary(bytes, to);
    valid_utf8_split(bytes, from);
    valid_utf8_split(bytes, to);
    let head = bytes.subrange(0, to);
    assert(boundary(head, from));
    lemma_boundary(head, from);
    valid_utf8_split(head, from);
    assert(head.subrange(from, head.len() as int) =~= bytes.subrange(from, to));
}

/// A well-formed text that begins with a well-formed `prefix` has a boundary
/// where the prefix ends.
pub proof fn lemma_prefix_ends_on_boundary(text: Seq<u8>, prefix: Seq<u8>)
    requires
        valid_utf8(text),
        valid_utf8(prefix),
        has_prefix(text, prefix),
    ensures
        boundary(text, prefix.len() as int),
    decreases prefix.len(),
{
    if prefix.len() == 0 {
        lemma_boundary(text, 0);
        is_char_boundary_start_end_of_seq(text);
    } else {
        assert(text.subrange(0, prefix.len() as int) == prefix);
        assert(forall|i: int| 0 <= i < prefix.len() ==> text[i] == text.subrange(
            0,
            prefix.len() as int,
        )[i]);
        let step = length_of_first_scalar(prefix);
        assert(step == length_of_first_scalar(text));
        assert(1 <= step <= prefix.len());
        let text_rest = pop_first_scalar(text);
        let prefix_rest = pop_first_scalar(prefix);
        assert(text_rest.subrange(0, prefix_rest.len() as int) =~= prefix_rest);
        lemma_prefix_ends_on_boundary(text_rest, prefix_rest);
        if prefix.len() < text.len() {
            assert(text_rest[prefix_rest.len() as int] == text[prefix.len() as int]);
        }
    }
}

/// Where a well-formed `pattern` stands in a well-formed `text`, it begins
/// and ends between characters.
pub proof fn lemma_occurrence_on_boundaries(text: Seq<u8>, pattern: Seq<u8>, at: int)
    requires
        valid_utf8(text),
        valid_utf8(pattern),
        occurs_at(text, pattern, at),
        boundary(text, at) || pattern.len() > 0,
    ensures
        boundary(text, at),
        boundary(text, at + pattern.len()),
{
    if pattern.len() > 0 {
        lemma_boundary(pattern, 0);
        is_char_boundary_start_end_of_seq(pattern);
        assert(text[at] == text.subrange(at, at + pattern.len())[0]);
    }
    lemma_cut_is_valid(text, at, text.len() as int);
    let tail = text.subrange(at, text.len() as int);
    assert(tail.subrange(0, pattern.len() as int) =~= text.subrange(at, at + pattern.len()));
    lemma_prefix_ends_on_boundary(tail, pattern);
    if at + pattern.len() < text.len() {
        assert(tail[pattern.len() as int] == text[at + pattern.len()]);
    }
}

/// The bytes of a `&str` are well-formed UTF-8.
pub proof fn lemma_str_is_valid(text: &str)
    ensures
        valid_utf8(text.spec_bytes()),
        boundary(text.spec_bytes(), 0),
        boundary(text.spec_bytes(), text.spec_bytes().len() as int),
{
    encode_utf8_valid_utf8(text@);
    lemma_boundary(text.spec_bytes(), 0);
    lemma_boundary(text.spec_bytes(), text.spec_bytes().len() as int);
    is_char_boundary_start_end_of_seq(text.spec_bytes());
}

/// A `String` that spells what `text` spells.
pub fn owned(text: &str) -> (copy: String)
    ensures
        copy@ == spelled(text.spec_bytes()),
        copy@ == text@,
{
    proof {
        encode_utf8_decode_utf8(text@);
    }
    text.to_owned()
}

/// Where a pattern is found, it lies inside the text.
pub proof fn lemma_occurrence_fits(text: Seq<u8>, pattern: Seq<u8>)
    ensures
        first_occurrence(text, pattern) matches Some(at) ==> leftmost(text, pattern, at) && 0
            <= at && at + pattern.len() <= text.len(),
        first_occurrence(text, pattern) is None ==> forall|at: int| !leftmost(text, pattern, at),
{
}

/// The two sides of a split are shorter than the text by the delimiter.
pub proof fn lemma_split_lengths(text: Seq<u8>, delimiter: Seq<u8>)
    ensures
        split_at_first(text, delimiter) matches Some(parts) ==> parts.0.len() + delimiter.len()
            + parts.1.len() == text.len(),
{
    lemma_occurrence_fits(text, delimiter);
}

/// The length of `text` in bytes.
pub fn length(text: &str) -> (n: usize)
    ensures
        n == text.spec_bytes().len(),
{
    text.as_bytes().len()
}

/// The part of `text` from byte `from` up to byte `to`.
pub fn slice<'a>(text: &'a str, from: usize, to: usize) -> (part: &'a str)
    requires
        from <= to,
        boundary(text.spec_bytes(), from as int),
        boundary(text.spec_bytes(), to as int),
    ensures
        part.spec_bytes() == text.spec_bytes().subrange(from as int, to as int),
{
    proof {
        lemma_str_is_valid(text);
        lemma_boundary(text.spec_bytes(), to as int);
    }
    let (head, _) = text.split_at(to);
    proof {
        lemma_str_is_valid(head);
        assert(boundary(head.spec_bytes(), from as int));
        lemma_boundary(head.spec_bytes(), from as int);
    }
    let (_, part) = head.split_at(from);
    assert(part.spec_bytes() =~= text.spec_bytes().subrange(from as int, to as int));
    part
}

/// The part of `text` from byte `from` to the end.
pub fn skip<'a>(text: &'a str, from: usize) -> (part: &'a str)
    requires
        boundary(text.spec_bytes(), from as int),
    ensures
        part.spec_bytes() == text.spec_bytes().skip(from as int),
{
    proof {
        lemma_str_is_valid(text);
    }
    let part = slice(text, from, length(text));
    assert(part.spec_bytes() =~= text.spec_bytes().skip(from as int));
    part
}

/// The first `to` bytes of `text`.
pub fn take<'a>(text: &'a str, to: usize) -> (part: &'a str)
    requires
        boundary(text.spec_bytes(), to as int),
    ensures
        part.spec_bytes() == text.spec_bytes().take(to as int),
{
    proof {
        lemma_str_is_valid(text);
    }
    let part = slice(text, 0, to);
    assert(part.spec_bytes() =~= text.spec_bytes().take(to as int));
    part
}

/// Whether `pattern` stands in `text` at offset `at`.
pub fn stands_at(text: &[u8], pattern: &[u8], at: usize) -> (found: bool)
    ensures
        found == occurs_at(text@, pattern@, at as int),
{
    if pattern.len() > text.len() || at > text.len() - pattern.len() {
        return false;
    }
    let mut i: usize = 0;
    while i < pattern.len()
        invariant
            at + pattern.len() <= text.len(),
            i <= pattern.len(),
            forall|k: int| 0 <= k < i ==> text@[at + k] == pattern@[k],
        decreases pattern.len() - i,
    {
        if text[at + i] != pattern[i] {
            proof {
                let window = text@.subrange(at as int, at + pattern.len());
                assert(window[i as int] != pattern@[i as int]);
            }
            return false;
        }
        i += 1;
    }
    assert(text@.subrange(at as int, at + pattern.len()) =~= pattern@);
    true
}

/// Whether `text` begins with `prefix`.
pub fn starts_with(text: &str, prefix: &str) -> (yes: bool)
    ensures
        yes == has_prefix(text.spec_bytes(), prefix.spec_bytes()),
{
    stands_at(text.as_bytes(), prefix.as_bytes(), 0)
}

/// A leftmost occurrence is the one that `first_occurrence` names.
pub proof fn lemma_first_occurrence(text: Seq<u8>, pattern: Seq<u8>, at: int)
    requires
        leftmost(text, pattern, at),
    ensures
        first_occurrence(text, pattern) == Some(at),
{
    let chosen = choose|c: int| leftmost(text, pattern, c);
    assert(leftmost(text, pattern, chosen));
    if chosen < at {
        assert(!occurs_at(text, pattern, chosen));
    }
    if at < chosen {
        assert(!occurs_at(text, pattern, at));
    }
}

/// The byte offset of the leftmost `pattern` in `text`.
pub fn find(text: &str, pattern: &str) -> (found: Option<usize>)
    ensures
        match found {
            Some(at) => first_occurrence(text.spec_bytes(), pattern.spec_bytes()) == Some(
                at as int,
            ),
            None => first_occurrence(text.spec_bytes(), pattern.spec_bytes()).is_none(),
        },
        found matches Some(at) ==> leftmost(text.spec_bytes(), pattern.spec_bytes(), at as int),
{
    let bytes = text.as_bytes();
    let wanted = pattern.as_bytes();
    if wanted.len() > bytes.len() {
        assert(forall|at: int| !occurs_at(bytes@, wanted@, at));
        return None;
    }
    let last = bytes.len() - wanted.len();
    let mut at: usize = 0;
    loop
        invariant
            bytes@ == text.spec_bytes(),
            wanted@ == pattern.spec_bytes(),
            last + wanted.len() == bytes.len(),
            at <= last,
            forall|earlier: int| 0 <= earlier < at ==> !occurs_at(bytes@, wanted@, earlier),
        decreases last - at,
    {
        if stands_at(bytes, wanted, at) {
            proof {
                lemma_first_occurrence(bytes@, wanted@, at as int);
            }
            return Some(at);
        }
        if at == last {
            assert(forall|at: int| !occurs_at(bytes@, wanted@, at));
            return None;
        }
        at += 1;
    }
}

/// Cuts `text` at the leftmost `delimiter`: what stands before it and what
/// stands after it. `None` where the delimiter is missing.
pub fn split<'a>(text: &'a str, delimiter: &str) -> (parts: Option<(&'a str, &'a str)>)
    ensures
        match parts {
            Some((before, after)) => split_at_first(text.spec_bytes(), delimiter.spec_bytes())
                == Some((before.spec_bytes(), after.spec_bytes())),
            None => split_at_first(text.spec_bytes(), delimiter.spec_bytes()).is_none(),
        },
{
    match find(text, delimiter) {
        Some(at) => {
            proof {
                lemma_str_is_valid(text);
                lemma_str_is_valid(delimiter);
                if delimiter.spec_bytes().len() == 0 {
                    assert(text.spec_bytes().subrange(0, 0) =~= delimiter.spec_bytes());
                    assert(occurs_at(text.spec_bytes(), delimiter.spec_bytes(), 0));
                }
                lemma_occurrence_on_boundaries(
                    text.spec_bytes(),
                    delimiter.spec_bytes(),
                    at as int,
                );
            }
            let end = length(text);
            let before = take(text, at);
            let after = slice(text, at + length(delimiter), end);
            assert(after.spec_bytes() =~= text.spec_bytes().subrange(
                at + delimiter.spec_bytes().len(),
                text.spec_bytes().len() as int,
            ));
            Some((before, after))
        },
        None => None,
    }
}

/// As `split`, with the whole text and an empty rest where the delimiter is
/// missing.
pub fn split_or_end<'a>(text: &'a str, delimiter: &str) -> (parts: (&'a str, &'a str))
    ensures
        (parts.0.spec_bytes(), parts.1.spec_bytes()) == split_or_rest(
            text.spec_bytes(),
            delimiter.spec_bytes(),
        ),
{
    match split(text, delimiter) {
        Some(parts) => parts,
        None => {
            proof {
                lemma_str_is_valid(text);
            }
            let rest = skip(text, length(text));
            assert(rest.spec_bytes() =~= Seq::<u8>::empty());
            (text, rest)
        },
    }
}

/// What stands before the first delimiter holds no delimiter.
pub proof fn lemma_before_holds_no_delimiter(text: Seq<u8>, delimiter: Seq<u8>)
    requires
        delimiter.len() > 0,
    ensures
        split_at_first(text, delimiter) matches Some(parts) ==> first_occurrence(
            parts.0,
            delimiter,
        ) is None,
{
    lemma_occurrence_fits(text, delimiter);
    if let Some(at) = first_occurrence(text, delimiter) {
        let before = text.subrange(0, at);
        lemma_occurrence_fits(before, delimiter);
        if let Some(inner) = first_occurrence(before, delimiter) {
            assert(text.subrange(inner, inner + delimiter.len()) =~= before.subrange(
                inner,
                inner + delimiter.len(),
            ));
            assert(occurs_at(text, delimiter, inner));
        }
    }
}

/// `byte` stands nowhere in `text`.
pub open spec fn without(text: Seq<u8>, byte: u8) -> bool {
    forall|i: int| 0 <= i < text.len() ==> #[trigger] text[i] != byte
}

/// What lacks in a text lacks in every part of it.
pub proof fn lemma_part_without(text: Seq<u8>, byte: u8, from: int, to: int)
    requires
        without(text, byte),
        0 <= from <= to <= text.len(),
    ensures
        without(text.subrange(from, to), byte),
        without(text.skip(from), byte),
        without(text.take(to), byte),
{
    assert forall|i: int| 0 <= i < to - from implies #[trigger] text.subrange(from, to)[i]
        != byte by {
        assert(text.subrange(from, to)[i] == text[from + i]);
    }
    assert forall|i: int| 0 <= i < text.len() - from implies #[trigger] text.skip(from)[i]
        != byte by {
        assert(text.skip(from)[i] == text[from + i]);
    }
    assert forall|i: int| 0 <= i < to implies #[trigger] text.take(to)[i] != byte by {
        assert(text.take(to)[i] == text[i]);
    }
}

/// What lacks in two texts lacks in the two joined.
pub proof fn lemma_joined_without(left: Seq<u8>, right: Seq<u8>, byte: u8)
    requires
        without(left, byte),
        without(right, byte),
    ensures
        without(left + right, byte),
{
    assert forall|i: int| 0 <= i < (left + right).len() implies #[trigger] (left + right)[i]
        != byte by {
        if i < left.len() {
            assert((left + right)[i] == left[i]);
        } else {
            assert((left + right)[i] == right[i - left.len()]);
        }
    }
}

/// What lacks in a text lacks on both sides of a split, and a delimiter
/// that holds it is not found.
pub proof fn lemma_split_without(text: Seq<u8>, delimiter: Seq<u8>, byte: u8)
    requires
        without(text, byte),
    ensures
        split_at_first(text, delimiter) matches Some(parts) ==> without(parts.0, byte) && without(
            parts.1,
            byte,
        ),
        without(split_or_rest(text, delimiter).0, byte),
        without(split_or_rest(text, delimiter).1, byte),
        delimiter.len() > 0 && delimiter[0] == byte ==> split_at_first(text, delimiter) is None,
{
    lemma_occurrence_fits(text, delimiter);
    if let Some(at) = first_occurrence(text, delimiter) {
        lemma_part_without(text, byte, 0, at);
        lemma_part_without(text, byte, at + delimiter.len(), text.len() as int);
        if delimiter.len() > 0 {
            assert(text.subrange(at, at + delimiter.len())[0] == text[at]);
        }
    }
}

} // verus!
