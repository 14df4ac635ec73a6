//! The styled text of which a footer line is made.

use ratatui::style::Stylize;
use ratatui::text::{Line, Span};
use vstd::prelude::*;

verus! {

/// A piece of styled text of `ratatui`.
#[verifier::external_type_specification]
#[verifier::external_body]
pub struct ExSpan<'a>(ratatui::text::Span<'a>);

/// A line of styled text of `ratatui`.
#[verifier::external_type_specification]
#[verifier::external_body]
pub struct ExLine<'a>(ratatui::text::Line<'a>);

/// A colour of text.
pub enum Foreground {
    Red,
    Cyan,
    Other,
}

/// What a style sets. `other` stands for everything but the colour of the text and the two
/// modifiers `BOLD` and `DIM`: whether the style has a background, adds another modifier or removes
/// one.
pub struct SpanStyle {
    pub foreground: Option<Foreground>,
    pub bold: bool,
    pub dim: bool,
    pub other: bool,
}

/// A text in one style.
pub struct StyledText {
    pub text: Seq<char>,
    pub style: SpanStyle,
}

/// The style that sets nothing.
pub open spec fn plain() -> SpanStyle {
    SpanStyle { foreground: None, bold: false, dim: false, other: false }
}

/// The style that sets the colour of the text.
pub open spec fn coloured(foreground: Foreground) -> SpanStyle {
    SpanStyle { foreground: Some(foreground), ..plain() }
}

/// The style that dims the text.
pub open spec fn dimmed() -> SpanStyle {
    SpanStyle { dim: true, ..plain() }
}

/// What a span holds: its `content` and its `style`.
pub uninterp spec fn span_content(span: Span<'static>) -> StyledText;

/// What a line holds: its `spans`, in order.
pub uninterp spec fn line_content(line: Line<'static>) -> Seq<StyledText>;

/// Whether a line has the default `style` and no `alignment` of its own.
pub uninterp spec fn line_is_plain(line: Line<'static>) -> bool;

/// `Span::from` makes a span of a text, in the default style, which sets nothing.
#[verifier::external_body]
pub(crate) fn plain_span(text: String) -> (span: Span<'static>)
    ensures
        span_content(span) == (StyledText { text: text@, style: plain() }),
{
    Span::from(text)
}

/// `Stylize::red` on a string makes a span of it whose style sets the red colour and nothing else.
#[verifier::external_body]
pub(crate) fn red_span(text: &'static str) -> (span: Span<'static>)
    ensures
        span_content(span) == (StyledText { text: text@, style: coloured(Foreground::Red) }),
{
    text.red()
}

/// `Stylize::cyan` on a string makes a span of it whose style sets the cyan colour and nothing else.
#[verifier::external_body]
pub(crate) fn cyan_span(text: &'static str) -> (span: Span<'static>)
    ensures
        span_content(span) == (StyledText { text: text@, style: coloured(Foreground::Cyan) }),
{
    text.cyan()
}

/// `Stylize::dim` on a string makes a span of it whose style adds the modifier `DIM` and sets
/// nothing else.
#[verifier::external_body]
pub(crate) fn dim_span(text: &'static str) -> (span: Span<'static>)
    ensures
        span_content(span) == (StyledText { text: text@, style: dimmed() }),
{
    text.dim()
}

/// `Stylize::bold` on a span keeps its text and adds the modifier `BOLD` to its style. Of a style
/// that removes modifiers nothing is claimed: adding `BOLD` there ends its removal.
#[verifier::external_body]
pub(crate) fn bold_span(span: Span<'static>) -> (bold: Span<'static>)
    ensures
        span_content(bold).text == span_content(span).text,
        !span_content(span).style.other ==> span_content(bold).style == (SpanStyle {
            bold: true,
            ..span_content(span).style
        }),
{
    span.bold()
}

/// `Line::from` makes a line of spans, in the default style and without an alignment.
#[verifier::external_body]
pub(crate) fn line_of(spans: Vec<Span<'static>>) -> (line: Line<'static>)
    ensures
        line_content(line) == spans@.map_values(|span: Span<'static>| span_content(span)),
        line_is_plain(line),
{
    Line::from(spans)
}

} // verus!
