//! What a failed formatting reports.

use crate::decimal::{decimal, to_decimal};
use crate::dictionary::pair_views;
use crate::model::Fault;
use vstd::prelude::*;

verus! {

/// Why and where formatting a pattern failed.
#[derive(Debug, Clone)]
pub struct DynamicFormatError {
    /// The pattern that could not be formatted.
    pub pattern: String,
    /// The position of the offending brace, in characters from zero.
    pub pos: usize,
    /// The kind of failure.
    pub kind: DynamicFormatErrorKind,
}

/// The kinds of failure, each with what is known about it.
#[derive(Debug, Clone)]
pub enum DynamicFormatErrorKind {
    /// A brace is neither doubled nor part of a placeholder.
    TokenError {
        /// Which brace is at fault.
        desc: String,
    },
    /// A placeholder names a key that the dictionary does not hold.
    KeyError {
        /// The key that was looked up.
        key: String,
        /// The entries of the dictionary, in insertion order.
        entries: Vec<(String, String)>,
    },
}

/// A [`DynamicFormatErrorKind`] as mathematical values.
pub enum ErrorKindView {
    TokenError { desc: Seq<char> },
    KeyError { key: Seq<char>, entries: Seq<(Seq<char>, Seq<char>)> },
}

/// A [`DynamicFormatError`] as mathematical values.
pub struct ErrorView {
    pub pattern: Seq<char>,
    pub pos: int,
    pub kind: ErrorKindView,
}

impl View for DynamicFormatErrorKind {
    type V = ErrorKindView;

    open spec fn view(&self) -> ErrorKindView {
        match *self {
            DynamicFormatErrorKind::TokenError { desc } => ErrorKindView::TokenError {
                desc: desc@,
            },
            DynamicFormatErrorKind::KeyError { key, entries } => ErrorKindView::KeyError {
                key: key@,
                entries: pair_views(entries@),
            },
        }
    }
}

impl View for DynamicFormatError {
    type V = ErrorView;

    open spec fn view(&self) -> ErrorView {
        ErrorView { pattern: self.pattern@, pos: self.pos as int, kind: self.kind@ }
    }
}

/// The description carried by the report of an unmatched `{`.
pub open spec fn unmatched_open_desc() -> Seq<char> {
    "Unmatched token '{'"@
}

/// The description carried by the report of an unmatched `}`.
pub open spec fn unmatched_close_desc() -> Seq<char> {
    "Unmatched token '}'"@
}

/// The report of `fault`, met while formatting `pattern` against a dictionary
/// with the given entries.
pub open spec fn report(
    pattern: Seq<char>,
    entries: Seq<(Seq<char>, Seq<char>)>,
    fault: Fault,
) -> ErrorView {
    match fault {
        Fault::UnmatchedOpen { pos } => ErrorView {
            pattern,
            pos,
            kind: ErrorKindView::TokenError { desc: unmatched_open_desc() },
        },
        Fault::UnmatchedClose { pos } => ErrorView {
            pattern,
            pos,
            kind: ErrorKindView::TokenError { desc: unmatched_close_desc() },
        },
        Fault::MissingKey { pos, key } => ErrorView {
            pattern,
            pos,
            kind: ErrorKindView::KeyError { key, entries },
        },
    }
}

/// One line of the listing of a dictionary: the key, a colon, a space and
/// the text.
pub open spec fn entry_line(entry: (Seq<char>, Seq<char>)) -> Seq<char> {
    entry.0 + ": "@ + entry.1
}

/// The listing of a dictionary: one line for each entry, in order, with a
/// line feed between two lines and none at the end.
pub open spec fn entry_lines(entries: Seq<(Seq<char>, Seq<char>)>) -> Seq<char>
    decreases entries.len(),
{
    if entries.len() == 0 {
        Seq::empty()
    } else if entries.len() == 1 {
        entry_line(entries[0])
    } else {
        entry_lines(entries.drop_last()) + "\n"@ + entry_line(entries.last())
    }
}

/// Where the failure lies: the pattern in double quotes and the position in
/// decimal, counted in characters from zero.
pub open spec fn location(error: ErrorView) -> Seq<char> {
    " when parsing pattern \""@ + error.pattern + "\" at pos "@ + decimal(error.pos as nat)
        + "."@
}

/// The message that tells a person what went wrong: the kind of failure, the
/// location and, for a missing key, the entries that the dictionary does
/// hold.
pub open spec fn diagnostic(error: ErrorView) -> Seq<char> {
    match error.kind {
        ErrorKindView::TokenError { desc } => "Parse arguments failed: Token Error ("@ + desc
            + ")"@ + location(error),
        ErrorKindView::KeyError { key, entries } =>
            "Parse arguments failed: Key Not Found (key: \""@ + key + "\")"@ + location(error)
                + "\nHelp: These are valid key-value pairs:\n"@ + entry_lines(entries),
    }
}

impl DynamicFormatError {
    /// Appends the location of the failure to `text`.
    fn push_location(&self, text: &mut String)
        ensures
            final(text)@ == old(text)@ + location(self@),
    {
        text.append(" when parsing pattern \"");
        text.append(self.pattern.as_str());
        text.append("\" at pos ");
        text.append(to_decimal(self.pos).as_str());
        text.append(".");
        assert(text@ =~= old(text)@ + location(self@));
    }

    /// The message for a person to read.
    pub fn to_string(&self) -> (text: String)
        ensures
            text@ == diagnostic(self@),
    {
        let mut text = String::new();
        match &self.kind {
            DynamicFormatErrorKind::TokenError { desc } => {
                text.append("Parse arguments failed: Token Error (");
                text.append(desc.as_str());
                text.append(")");
                self.push_location(&mut text);
                assert(text@ =~= diagnostic(self@));
            },
            DynamicFormatErrorKind::KeyError { key, entries } => {
                text.append("Parse arguments failed: Key Not Found (key: \"");
                text.append(key.as_str());
                text.append("\")");
                self.push_location(&mut text);
                text.append("\nHelp: These are valid key-value pairs:\n");
                let ghost head = text@;
                let ghost lines = pair_views(entries@);
                let mut i: usize = 0;
                while i < entries.len()
                    invariant
                        i <= entries.len(),
                        lines == pair_views(entries@),
                        text@ == head + entry_lines(lines.take(i as int)),
                    decreases entries.len() - i,
                {
                    if i > 0 {
                        text.append("\n");
                    }
                    text.append(entries[i].0.as_str());
                    text.append(": ");
                    text.append(entries[i].1.as_str());
                    proof {
                        let taken = lines.take(i + 1);
                        assert(taken.drop_last() =~= lines.take(i as int));
                        assert(taken.last() == lines[i as int]);
                        assert(text@ =~= head + entry_lines(taken));
                    }
                    i += 1;
                }
                assert(lines.take(i as int) =~= lines);
                assert(text@ =~= diagnostic(self@));
            },
        }
        text
    }
}

} // verus!
