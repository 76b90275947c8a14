//! Configuration of the characters a diagnostic is drawn with.
use vstd::prelude::*;

verus! {

/// The characters used when drawing a diagnostic.
#[derive(Debug, Clone, Copy)]
pub struct Charset {
    /// Drawn between the line number and the source text.
    pub column_line: char,
    /// Drawn in the left column of caret and extension rows.
    pub column_broken_line: char,
    /// Drawn under each display column of an inline label's span.
    pub spanning: char,
    /// Drawn across a split marker, on both sides of its midpoint.
    pub spanning_out: char,
    /// Drawn at the midpoint of a split marker.
    pub spanning_mid: char,
    /// Carries a deferred label's connector down one more row.
    pub out_extension: char,
    /// Ends a deferred label's connector, right before its message.
    pub out_end: char,
    /// Starts a note row.
    pub note: char,
}

/// The value of [`Charset::unicode`].
pub open spec fn unicode_charset() -> Charset {
    Charset {
        column_line: '|',
        column_broken_line: '¦',
        spanning: '^',
        spanning_out: '─',
        spanning_mid: '┬',
        out_extension: '│',
        out_end: '╰',
        note: '>',
    }
}

/// The value of [`Charset::ascii`].
pub open spec fn ascii_charset() -> Charset {
    Charset {
        column_line: '|',
        column_broken_line: ':',
        spanning: '^',
        spanning_out: '-',
        spanning_mid: '.',
        out_extension: '|',
        out_end: '\\',
        note: '>',
    }
}

impl Charset {
    /// A (pretty) charset of box-drawing characters.
    pub fn unicode() -> (r: Charset)
        ensures
            r == unicode_charset(),
    {
        Charset {
            column_line: '|',
            column_broken_line: '¦',
            spanning: '^',
            spanning_out: '─',
            spanning_mid: '┬',
            out_extension: '│',
            out_end: '╰',
            note: '>',
        }
    }

    /// A plain ASCII charset.
    pub fn ascii() -> (r: Charset)
        ensures
            r == ascii_charset(),
    {
        Charset {
            column_line: '|',
            column_broken_line: ':',
            spanning: '^',
            spanning_out: '-',
            spanning_mid: '.',
            out_extension: '|',
            out_end: '\\',
            note: '>',
        }
    }
}

} // verus!
