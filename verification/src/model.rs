//! The mathematical model of formatting: a scanner that reads the pattern one
//! character at a time, written as pure functions on sequences and maps.
//!
//! Positions are offsets in characters, counted from zero.

use vstd::prelude::*;

verus! {

/// What the scanner remembers between two characters.
pub struct ScanState {
    /// Position of a `{` that has been neither doubled nor closed yet.
    pub open: Option<int>,
    /// Position of a `}` outside any placeholder that has not been doubled yet.
    pub close: Option<int>,
    /// The characters read since the pending `{`.
    pub key: Seq<char>,
    /// The text produced so far.
    pub out: Seq<char>,
}

/// Why a pattern cannot be formatted.
pub enum Fault {
    /// The `{` at `pos` is neither doubled nor closed.
    UnmatchedOpen { pos: int },
    /// The `}` at `pos` is neither doubled nor the end of a placeholder.
    UnmatchedClose { pos: int },
    /// The placeholder that opens at `pos` names `key`, which the dictionary
    /// does not hold.
    MissingKey { pos: int, key: Seq<char> },
}

impl ScanState {
    /// The state before the first character.
    pub open spec fn start() -> ScanState {
        ScanState { open: None, close: None, key: Seq::empty(), out: Seq::empty() }
    }
}

/// The state after reading the character `c` at position `i` in state `s`, or
/// the fault that `c` brings to light.
pub open spec fn step(s: ScanState, i: int, c: char, dict: Map<Seq<char>, Seq<char>>) -> Result<
    ScanState,
    Fault,
> {
    if c == '{' {
        match s.open {
            Some(p) => if p + 1 == i {
                Ok(ScanState { open: None, close: s.close, key: s.key, out: s.out.push('{') })
            } else {
                Err(Fault::UnmatchedOpen { pos: p })
            },
            None => Ok(ScanState { open: Some(i), close: s.close, key: s.key, out: s.out }),
        }
    } else if c == '}' {
        match s.close {
            Some(p) => if p + 1 == i {
                Ok(ScanState { open: s.open, close: None, key: s.key, out: s.out.push('}') })
            } else {
                Err(Fault::UnmatchedClose { pos: p })
            },
            None => match s.open {
                Some(p) => if dict.contains_key(s.key) {
                    Ok(
                        ScanState {
                            open: None,
                            close: None,
                            key: Seq::empty(),
                            out: s.out + dict[s.key],
                        },
                    )
                } else {
                    Err(Fault::MissingKey { pos: p, key: s.key })
                },
                None => Ok(ScanState { open: s.open, close: Some(i), key: s.key, out: s.out }),
            },
        }
    } else if s.open is Some {
        Ok(ScanState { open: s.open, close: s.close, key: s.key.push(c), out: s.out })
    } else {
        Ok(ScanState { open: s.open, close: s.close, key: s.key, out: s.out.push(c) })
    }
}

/// The state after the first `n` characters of `pattern`, or the first fault
/// met among them.
pub open spec fn scan(pattern: Seq<char>, n: int, dict: Map<Seq<char>, Seq<char>>) -> Result<
    ScanState,
    Fault,
>
    decreases n,
{
    if n <= 0 {
        Ok(ScanState::start())
    } else {
        match scan(pattern, n - 1, dict) {
            Ok(s) => step(s, n - 1, pattern[n - 1], dict),
            Err(fault) => Err(fault),
        }
    }
}

/// What is left to decide once every character has been read: a brace that is
/// still pending is a fault, a pending `{` before a pending `}`.
pub open spec fn finish(s: ScanState) -> Result<Seq<char>, Fault> {
    match s.open {
        Some(p) => Err(Fault::UnmatchedOpen { pos: p }),
        None => match s.close {
            Some(p) => Err(Fault::UnmatchedClose { pos: p }),
            None => Ok(s.out),
        },
    }
}

/// The text that `pattern` stands for under `dict`, or the one fault that
/// keeps it from standing for any.
pub open spec fn formatted(pattern: Seq<char>, dict: Map<Seq<char>, Seq<char>>) -> Result<
    Seq<char>,
    Fault,
> {
    match scan(pattern, pattern.len() as int, dict) {
        Ok(s) => finish(s),
        Err(fault) => Err(fault),
    }
}

/// Neither brace occurs in `text`.
pub open spec fn brace_free(text: Seq<char>) -> bool {
    !text.contains('{') && !text.contains('}')
}

} // verus!
