//! Rendering of formulas, done by the `katex` crate.

use vstd::prelude::*;

use crate::error::ParseError;

verus! {

/// `katex::Error`, why a formula was not rendered. Nothing is known of its
/// inside.
#[verifier::external_type_specification]
#[verifier::external_body]
pub struct ExKatexError(katex::Error);

/// The markup (HTML with MathML) that KaTeX renders the formula `tex` to, in
/// display mode or inline.
pub uninterp spec fn katex_markup(tex: Seq<char>, display: bool) -> Seq<char>;

/// `katex::render_with_opts`, with the output type `HtmlAndMathml` and the
/// display mode as given. When it succeeds, the markup is the one that KaTeX
/// gives for this formula and mode; when it fails is left to the crate.
#[verifier::external_body]
fn katex_render(tex: &str, display: bool) -> (rendered: Result<String, katex::Error>)
    ensures
        rendered matches Ok(markup) ==> markup@ == katex_markup(tex@, display),
{
    let mut options = katex::Opts::default();
    options.set_output_type(katex::OutputType::HtmlAndMathml);
    options.set_display_mode(display);
    katex::render_with_opts(tex, &options)
}

/// What `render` returns, given what the renderer returned.
pub fn rendered_or_failure(rendered: Result<String, katex::Error>) -> (result: Result<
    String,
    ParseError,
>)
    ensures
        match rendered {
            Ok(markup) => result == Ok::<String, ParseError>(markup),
            Err(_) => result == Err::<String, ParseError>(ParseError::MathRenderFailure),
        },
{
    match rendered {
        Ok(markup) => Ok(markup),
        Err(_) => Err(ParseError::MathRenderFailure),
    }
}

/// Renders the formula `tex`. The only failure is `MathRenderFailure`.
pub fn render(tex: &str, display: bool) -> (result: Result<String, ParseError>)
    ensures
        match result {
            Ok(markup) => markup@ == katex_markup(tex@, display),
            Err(error) => error == ParseError::MathRenderFailure,
        },
{
    rendered_or_failure(katex_render(tex, display))
}

} // verus!
