//! Formatting a pattern against a dictionary.

use crate::dictionary::Dictionary;
use crate::error::{report, DynamicFormatError, DynamicFormatErrorKind};
use crate::laws::{lemma_brace_free_identity, lemma_fault_persists, lemma_fault_points_at_brace};
use crate::model::{brace_free, formatted, scan, Fault, ScanState};
use crate::text::{contains_char, to_chars};
use vstd::prelude::*;

verus! {

/// A marker as the model holds it.
spec fn as_position(marker: Option<usize>) -> Option<int> {
    match marker {
        Some(p) => Some(p as int),
        None => None,
    }
}

/// Replaces every `{key}` of `pattern` by the text that `dictionary` holds
/// for `key`, and the escapes `{{` and `}}` by one brace each.
///
/// The pattern is read once, left to right, and the first fault ends the
/// reading: a `{` or `}` that is neither doubled nor part of a placeholder is
/// a token error at that brace, and a placeholder whose key the dictionary does
/// not hold is a key error at the placeholder's `{`. Positions count
/// characters from zero. The error carries the pattern and, for a key error,
/// the key and the dictionary's entries in insertion order; nothing of the
/// text produced before the fault is handed out. A pattern without braces
/// comes back unchanged.
pub fn dynamic_format(pattern: &str, dictionary: &Dictionary) -> (result: Result<
    String,
    Box<DynamicFormatError>,
>)
    ensures
        match formatted(pattern@, dictionary@) {
            Ok(expected) => result matches Ok(text) && text@ == expected,
            Err(fault) => result matches Err(error) && error@ == report(
                pattern@,
                dictionary.entries_view(),
                fault,
            ),
        },
        brace_free(pattern@) ==> (result matches Ok(text) && text@ == pattern@),
        result matches Err(error) ==> error.pos < pattern@.len(),
{
    proof {
        if brace_free(pattern@) {
            lemma_brace_free_identity(pattern@, dictionary@);
        }
        if formatted(pattern@, dictionary@) is Err {
            lemma_fault_points_at_brace(pattern@, dictionary@);
        }
    }
    if !contains_char(pattern, '{') && !contains_char(pattern, '}') {
        return Ok(pattern.to_owned());
    }
    let chars = to_chars(pattern);
    let mut out = String::new();
    let mut open: Option<usize> = None;
    let mut close: Option<usize> = None;
    let mut key = String::new();

    let mut i: usize = 0;
    while i < chars.len()
        invariant
            i <= chars.len(),
            chars@ == pattern@,
            open matches Some(p) ==> p < i,
            close matches Some(p) ==> p < i,
            scan(pattern@, i as int, dictionary@) == Ok::<ScanState, Fault>(
                ScanState {
                    open: as_position(open),
                    close: as_position(close),
                    key: key@,
                    out: out@,
                },
            ),
        decreases chars.len() - i,
    {
        let c = chars[i];
        proof {
            if scan(pattern@, i + 1, dictionary@) is Err {
                lemma_fault_persists(pattern@, i + 1, pattern@.len() as int, dictionary@);
            }
        }
        if c == '{' {
            match open {
                Some(p) => {
                    if p + 1 == i {
                        out.push('{');
                        open = None;
                    } else {
                        return Err(token_error(pattern, p, "Unmatched token '{'"));
                    }
                },
                None => {
                    open = Some(i);
                },
            }
        } else if c == '}' {
            match close {
                Some(p) => {
                    if p + 1 == i {
                        out.push('}');
                        close = None;
                    } else {
                        return Err(token_error(pattern, p, "Unmatched token '}'"));
                    }
                },
                None => match open {
                    Some(p) => {
                        match dictionary.get(key.as_str()) {
                            Some(text) => {
                                out.append(text.as_str());
                            },
                            None => {
                                return Err(
                                    Box::new(
                                        DynamicFormatError {
                                            pattern: pattern.to_owned(),
                                            pos: p,
                                            kind: DynamicFormatErrorKind::KeyError {
                                                key,
                                                entries: dictionary.entries(),
                                            },
                                        },
                                    ),
                                );
                            },
                        }
                        key = String::new();
                        open = None;
                    },
                    None => {
                        close = Some(i);
                    },
                },
            }
        } else if open.is_some() {
            key.push(c);
        } else {
            out.push(c);
        }
        i += 1;
    }

    if let Some(p) = open {
        return Err(token_error(pattern, p, "Unmatched token '{'"));
    }
    if let Some(p) = close {
        return Err(token_error(pattern, p, "Unmatched token '}'"));
    }
    Ok(out)
}

/// The report of a brace at `pos` that matches nothing.
fn token_error(pattern: &str, pos: usize, desc: &str) -> (error: Box<DynamicFormatError>)
    ensures
        error.pattern@ == pattern@,
        error.pos == pos,
        error.kind matches DynamicFormatErrorKind::TokenError { desc: d } && d@ == desc@,
{
    Box::new(
        DynamicFormatError {
            pattern: pattern.to_owned(),
            pos,
            kind: DynamicFormatErrorKind::TokenError { desc: desc.to_owned() },
        },
    )
}

} // verus!
