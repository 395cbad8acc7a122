//! Fitting a status message into the width of the terminal.

use vstd::prelude::*;
use vstd::string::is_ascii;
use unicode_truncate::UnicodeTruncateStr;
use unicode_width::UnicodeWidthStr;

verus! {

/// Columns that a text takes on the terminal, as `unicode-width` counts
/// them.
pub uninterp spec fn display_width(text: Seq<char>) -> nat;

/// The longest beginning of a text that takes at most `max_width` columns,
/// and the columns it takes, as `unicode-truncate` finds them.
pub uninterp spec fn truncated(text: Seq<char>, max_width: nat) -> (Seq<char>, nat);

/// Columns that `text` takes on the terminal.
///
/// Wraps `UnicodeWidthStr::width`.
#[verifier::external_body]
fn width_of(text: &str) -> (width: usize)
    ensures
        width == display_width(text@),
{
    text.width()
}

/// The longest beginning of `text` that takes at most `max_width` columns,
/// and the columns it takes.
///
/// Wraps `UnicodeTruncateStr::unicode_truncate`, which cuts at the end, on
/// a character boundary, and reports a width of at most `max_width`. In a
/// build with debug assertions it panics on a text whose width is not the
/// sum of the widths of its grapheme clusters, as with some Arabic
/// ligatures. No text of ASCII characters is such a text: each of its
/// characters is a cluster one column wide, but for a carriage return and
/// line feed, which are one cluster of one column together. So only such
/// texts are taken.
#[verifier::external_body]
fn truncate_to(text: &str, max_width: usize) -> (cut: (String, usize))
    requires
        is_ascii(text),
    ensures
        cut.0@ == truncated(text@, max_width as nat).0,
        cut.1 == truncated(text@, max_width as nat).1,
        cut.1 <= max_width,
        cut.0@.is_prefix_of(text@),
{
    let (kept, width) = text.unicode_truncate(max_width);
    (kept.to_owned(), width)
}

/// What to print of a status message.
#[derive(Debug, PartialEq, Eq)]
pub enum Fitted {
    /// The message as it is.
    Whole,
    /// The beginning of the message, followed by a `~` mark if `marked`.
    Cut { text: String, marked: bool },
    /// The message as it is, though it is wider than the terminal: it holds
    /// characters beyond ASCII and is not cut.
    Overlong,
}

/// Whether a message of `content_width` columns is too wide for a terminal
/// of `term_width` columns.
pub fn needs_cut(content_width: usize, term_width: usize) -> (cut: bool)
    ensures
        cut == (content_width > term_width),
{
    content_width > term_width
}

/// Columns left for the beginning of a message that is cut: all but one,
/// which is kept for the mark.
pub fn cut_budget(term_width: usize) -> (budget: usize)
    ensures
        budget == (if term_width == 0 {
            0
        } else {
            term_width - 1
        }),
{
    if term_width == 0 {
        0
    } else {
        term_width - 1
    }
}

/// Whether the mark fits behind a beginning of `printed_width` columns.
pub fn mark_fits(term_width: usize, printed_width: usize) -> (fits: bool)
    ensures
        fits == (term_width - printed_width >= 1),
{
    term_width > printed_width
}

/// Fits a status message into a terminal `term_width` columns wide: a
/// message that is not wider is printed whole; a wider one of ASCII
/// characters is cut to the longest beginning that leaves a column for the
/// mark, and marked if there is room; a wider one with other characters is
/// left as it is and reported as overlong.
pub fn log_terminal(content: &str, term_width: usize) -> (fitted: Fitted)
    ensures
        display_width(content@) <= term_width ==> fitted == Fitted::Whole,
        display_width(content@) > term_width && !is_ascii(content) ==> fitted == Fitted::Overlong,
        display_width(content@) > term_width && is_ascii(content) ==> match fitted {
            Fitted::Cut { text, marked } => {
                let budget = if term_width == 0 {
                    0nat
                } else {
                    (term_width - 1) as nat
                };
                &&& text@ == truncated(content@, budget).0
                &&& marked == (term_width - truncated(content@, budget).1 >= 1)
                &&& text@.is_prefix_of(content@)
            },
            _ => false,
        },
{
    if needs_cut(width_of(content), term_width) {
        if content.is_ascii() {
            let (text, printed_width) = truncate_to(content, cut_budget(term_width));
            let marked = mark_fits(term_width, printed_width);
            Fitted::Cut { text, marked }
        } else {
            Fitted::Overlong
        }
    } else {
        Fitted::Whole
    }
}

} // verus!
