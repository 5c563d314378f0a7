//! The regular expressions of the file format, compiled once and applied
//! through the `regex` crate.
//!
//! What a pattern matches is not restated here: it is named by `match_spans`,
//! and the parsers are specified over that name.

use vstd::prelude::*;
use vstd::string::StringSliceAdditionalSpecFns;

use crate::text::boundary;

verus! {

/// `regex::Regex`, a compiled expression. Nothing is known of its inside.
#[verifier::external_type_specification]
#[verifier::external_body]
pub struct ExRegex(regex::Regex);

/// The pattern text that `regex::Regex::new` made the expression from (the
/// text that `regex::Regex::as_str` gives back). The library makes
/// expressions in no other way.
pub uninterp spec fn pattern_source(expression: regex::Regex) -> Seq<char>;

/// Whether `regex::Regex::new` accepts `pattern`.
pub uninterp spec fn pattern_compiles(pattern: Seq<char>) -> bool;

/// What `regex::Regex::captures` finds for `pattern` in the UTF-8 text
/// `text`: of the leftmost match, the byte span of every capture group,
/// group 0 (the whole match) first, and `None` for a group that took no
/// part; `None` altogether where the pattern does not match.
pub uninterp spec fn match_spans(pattern: Seq<char>, text: Seq<u8>) -> Option<
    Seq<Option<(usize, usize)>>,
>;

/// What holds of the spans of any match in `text`: the whole match is there,
/// and each span runs forward, inside the text, from one character boundary
/// to another.
pub open spec fn spans_fit(text: Seq<u8>, spans: Seq<Option<(usize, usize)>>) -> bool {
    &&& spans.len() >= 1
    &&& spans[0] is Some
    &&& forall|group: int|
        0 <= group < spans.len() ==> (#[trigger] spans[group] matches Some(span) ==> {
            &&& span.0 <= span.1 <= text.len()
            &&& boundary(text, span.0 as int)
            &&& boundary(text, span.1 as int)
        })
}

/// A line that opens an element: three or more `!`, the element type, any
/// number of `!key:value` properties, three or more `!`.
pub open spec fn header_pattern() -> Seq<char> {
    r"(?i)^!!!+(text|line|rect|rectangle)(?:!+\w+:[^!]+)*!!!+\s*$"@
}

/// One `!key:value` property of a header line.
pub open spec fn property_pattern() -> Seq<char> {
    r"!+(\w+):([^!]+)"@
}

/// The marker of an ordered list item: digits or a small roman numeral, a dot.
pub open spec fn ordered_pattern() -> Seq<char> {
    r"^(?:\s*)((?:[ivx]+|\d+)\.\s+)"@
}

/// The marker of an unordered list item: `*`, `+` or `-`.
pub open spec fn unordered_pattern() -> Seq<char> {
    r"^(?:\s*)([*+-]\s+)"@
}

/// One line of a block quote.
pub open spec fn quote_pattern() -> Seq<char> {
    r"^(?:\s*)>(.*)"@
}

/// An image: `![alt](url)`.
pub open spec fn image_pattern() -> Seq<char> {
    r"^(?:\s*)!\[(.*)\]\((.*)\)"@
}

/// A single `*` with no `*` beside it.
pub open spec fn italic_pattern() -> Seq<char> {
    r"(?:^|[^\*])(\*)(?:[^\*]|$)"@
}

/// Whether the `regex` crate accepts all the patterns of the format.
pub open spec fn patterns_compile() -> bool {
    &&& pattern_compiles(header_pattern())
    &&& pattern_compiles(property_pattern())
    &&& pattern_compiles(ordered_pattern())
    &&& pattern_compiles(unordered_pattern())
    &&& pattern_compiles(quote_pattern())
    &&& pattern_compiles(image_pattern())
    &&& pattern_compiles(italic_pattern())
}

/// `regex::Regex::new`: the compiled expression, or `None` where the crate
/// refuses the pattern. Which patterns it accepts is left to the crate; the
/// expression it hands back remembers the pattern it was made from.
#[verifier::external_body]
fn compile(pattern: &str) -> (compiled: Option<regex::Regex>)
    ensures
        compiled is Some <==> pattern_compiles(pattern@),
        compiled matches Some(expression) ==> pattern_source(expression) == pattern@,
{
    regex::Regex::new(pattern).ok()
}

/// `regex::Regex::captures`: the spans of the leftmost match, as the crate
/// finds them. Claimed of them is only what the crate documents of every
/// match: group 0 is present, and the offsets of each group are ordered,
/// inside the text and on character boundaries.
#[verifier::external_body]
fn captures(expression: &regex::Regex, text: &str) -> (found: Option<Vec<Option<(usize, usize)>>>)
    ensures
        match found {
            Some(spans) => match_spans(pattern_source(*expression), text.spec_bytes()) == Some(
                spans@,
            ),
            None => match_spans(pattern_source(*expression), text.spec_bytes()).is_none(),
        },
        found matches Some(spans) ==> spans_fit(text.spec_bytes(), spans@),
{
    let groups = expression.captures(text)?;
    Some(groups.iter().map(|group| group.map(|m| (m.start(), m.end()))).collect())
}

/// The match of `pattern` in `text`, as far as its spans fit the text.
pub open spec fn matched(pattern: Seq<char>, text: Seq<u8>) -> Option<Seq<Option<(usize, usize)>>> {
    match match_spans(pattern, text) {
        Some(spans) => if spans_fit(text, spans) {
            Some(spans)
        } else {
            None
        },
        None => None,
    }
}

/// The match of `pattern` in `text`, kept only where it begins at the start
/// of the text and is not empty.
pub open spec fn leading_match(pattern: Seq<char>, text: Seq<u8>) -> Option<
    Seq<Option<(usize, usize)>>,
> {
    match matched(pattern, text) {
        Some(spans) => if spans[0].unwrap().0 == 0 && spans[0].unwrap().1 > 0 {
            Some(spans)
        } else {
            None
        },
        None => None,
    }
}

/// The compiled patterns of the format.
pub struct Grammar {
    header: regex::Regex,
    property: regex::Regex,
    ordered: regex::Regex,
    unordered: regex::Regex,
    quote: regex::Regex,
    image: regex::Regex,
    italic: regex::Regex,
}

/// Which pattern to apply.
#[derive(Clone, Copy, Debug, PartialEq, Eq)]
pub enum Rule {
    Header,
    Property,
    Ordered,
    Unordered,
    Quote,
    Image,
    Italic,
}

impl Rule {
    /// The pattern text of the rule.
    pub open spec fn pattern(self) -> Seq<char> {
        match self {
            Rule::Header => header_pattern(),
            Rule::Property => property_pattern(),
            Rule::Ordered => ordered_pattern(),
            Rule::Unordered => unordered_pattern(),
            Rule::Quote => quote_pattern(),
            Rule::Image => image_pattern(),
            Rule::Italic => italic_pattern(),
        }
    }
}

impl Grammar {
    #[verifier::type_invariant]
    spec fn well_formed(self) -> bool {
        &&& pattern_source(self.header) == header_pattern()
        &&& pattern_source(self.property) == property_pattern()
        &&& pattern_source(self.ordered) == ordered_pattern()
        &&& pattern_source(self.unordered) == unordered_pattern()
        &&& pattern_source(self.quote) == quote_pattern()
        &&& pattern_source(self.image) == image_pattern()
        &&& pattern_source(self.italic) == italic_pattern()
    }

    /// Compiles the patterns of the format. `None` where the `regex` crate
    /// refuses one of them.
    pub fn new() -> (grammar: Option<Grammar>)
        ensures
            grammar is Some <==> patterns_compile(),
    {
        let header = compile(r"(?i)^!!!+(text|line|rect|rectangle)(?:!+\w+:[^!]+)*!!!+\s*$");
        let property = compile(r"!+(\w+):([^!]+)");
        let ordered = compile(r"^(?:\s*)((?:[ivx]+|\d+)\.\s+)");
        let unordered = compile(r"^(?:\s*)([*+-]\s+)");
        let quote = compile(r"^(?:\s*)>(.*)");
        let image = compile(r"^(?:\s*)!\[(.*)\]\((.*)\)");
        let italic = compile(r"(?:^|[^\*])(\*)(?:[^\*]|$)");
        match (header, property, ordered, unordered, quote, image, italic) {
            (
                Some(header),
                Some(property),
                Some(ordered),
                Some(unordered),
                Some(quote),
                Some(image),
                Some(italic),
            ) => Some(Grammar { header, property, ordered, unordered, quote, image, italic }),
            _ => None,
        }
    }

    /// The leftmost match of `rule` in `text`.
    pub fn find(&self, rule: Rule, text: &str) -> (found: Option<Vec<Option<(usize, usize)>>>)
        ensures
            match found {
                Some(spans) => matched(rule.pattern(), text.spec_bytes()) == Some(spans@),
                None => matched(rule.pattern(), text.spec_bytes()).is_none(),
            },
            found matches Some(spans) ==> spans_fit(text.spec_bytes(), spans@),
    {
        proof {
            use_type_invariant(self);
        }
        match rule {
            Rule::Header => captures(&self.header, text),
            Rule::Property => captures(&self.property, text),
            Rule::Ordered => captures(&self.ordered, text),
            Rule::Unordered => captures(&self.unordered, text),
            Rule::Quote => captures(&self.quote, text),
            Rule::Image => captures(&self.image, text),
            Rule::Italic => captures(&self.italic, text),
        }
    }

    /// The match of `rule` at the very start of `text`, if it is not empty.
    pub fn find_leading(&self, rule: Rule, text: &str) -> (found: Option<
        Vec<Option<(usize, usize)>>,
    >)
        ensures
            match found {
                Some(spans) => leading_match(rule.pattern(), text.spec_bytes()) == Some(spans@),
                None => leading_match(rule.pattern(), text.spec_bytes()).is_none(),
            },
            found matches Some(spans) ==> spans_fit(text.spec_bytes(), spans@),
    {
        match self.find(rule, text) {
            Some(spans) => {
                let keep = match spans[0] {
                    Some((from, to)) => from == 0 && to > 0,
                    None => false,
                };
                if keep {
                    Some(spans)
                } else {
                    None
                }
            },
            None => None,
        }
    }
}

} // verus!
