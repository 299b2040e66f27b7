//! The patterns that can be formatted, said without a scanner: a pattern is
//! well formed when it is spelled by a sequence of tokens, and the text it
//! stands for is what the tokens stand for, one after another.
//!
//! The two laws at the end say that the scanner of [`crate::model`] accepts
//! exactly these patterns and gives exactly this text.

use crate::laws::{
    lemma_brace_free_identity, lemma_escapes, lemma_formatted_concat, lemma_placeholder,
    lemma_scan_consistent, placeholder,
};
use crate::model::{formatted, scan, Fault, ScanState};
use vstd::prelude::*;

verus! {

/// One unit of a well-formed pattern.
pub enum Token {
    /// A character other than a brace; it stands for itself.
    Plain(char),
    /// The escape `{{`; it stands for `{`.
    OpenBrace,
    /// The escape `}}`; it stands for `}`.
    CloseBrace,
    /// The placeholder `{key}`; it stands for the text that the dictionary
    /// holds for the key.
    Key(Seq<char>),
}

impl Token {
    /// How the token is written in a pattern.
    pub open spec fn spelling(self) -> Seq<char> {
        match self {
            Token::Plain(c) => seq![c],
            Token::OpenBrace => seq!['{', '{'],
            Token::CloseBrace => seq!['}', '}'],
            Token::Key(key) => placeholder(key),
        }
    }

    /// What the token stands for.
    pub open spec fn text(self, dict: Map<Seq<char>, Seq<char>>) -> Seq<char> {
        match self {
            Token::Plain(c) => seq![c],
            Token::OpenBrace => seq!['{'],
            Token::CloseBrace => seq!['}'],
            Token::Key(key) => dict[key],
        }
    }

    /// Whether the token can be written and stands for something: a plain
    /// character is no brace, and a key holds no brace and is a key of the
    /// dictionary.
    pub open spec fn valid(self, dict: Map<Seq<char>, Seq<char>>) -> bool {
        match self {
            Token::Plain(c) => c != '{' && c != '}',
            Token::OpenBrace => true,
            Token::CloseBrace => true,
            Token::Key(key) => !key.contains('{') && !key.contains('}') && dict.contains_key(
                key,
            ),
        }
    }
}

/// The pattern that the tokens spell, one after another.
pub open spec fn spelling(tokens: Seq<Token>) -> Seq<char>
    decreases tokens.len(),
{
    if tokens.len() == 0 {
        Seq::empty()
    } else {
        spelling(tokens.drop_last()) + tokens.last().spelling()
    }
}

/// The text that the tokens stand for, one after another.
pub open spec fn text(tokens: Seq<Token>, dict: Map<Seq<char>, Seq<char>>) -> Seq<char>
    decreases tokens.len(),
{
    if tokens.len() == 0 {
        Seq::empty()
    } else {
        text(tokens.drop_last(), dict) + tokens.last().text(dict)
    }
}

/// Every token is valid.
pub open spec fn valid(tokens: Seq<Token>, dict: Map<Seq<char>, Seq<char>>) -> bool {
    forall|i: int| 0 <= i < tokens.len() ==> (#[trigger] tokens[i]).valid(dict)
}

proof fn lemma_token_is_formatted(token: Token, dict: Map<Seq<char>, Seq<char>>)
    requires
        token.valid(dict),
    ensures
        formatted(token.spelling(), dict) == Ok::<Seq<char>, Fault>(token.text(dict)),
{
    match token {
        Token::Plain(c) => {
            lemma_brace_free_identity(seq![c], dict);
        },
        Token::OpenBrace => {
            lemma_escapes(dict);
        },
        Token::CloseBrace => {
            lemma_escapes(dict);
        },
        Token::Key(key) => {
            lemma_placeholder(key, dict);
        },
    }
}

/// What valid tokens spell is formatted to what they stand for.
pub proof fn lemma_tokens_are_formatted(tokens: Seq<Token>, dict: Map<Seq<char>, Seq<char>>)
    requires
        valid(tokens, dict),
    ensures
        formatted(spelling(tokens), dict) == Ok::<Seq<char>, Fault>(text(tokens, dict)),
    decreases tokens.len(),
{
    if tokens.len() == 0 {
        lemma_brace_free_identity(Seq::empty(), dict);
    } else {
        lemma_tokens_are_formatted(tokens.drop_last(), dict);
        lemma_token_is_formatted(tokens.last(), dict);
        lemma_formatted_concat(spelling(tokens.drop_last()), tokens.last().spelling(), dict);
    }
}

/// The tokens account for the first `n` characters and for the state that the
/// scan has reached after them: they spell those characters up to a brace that
/// is pending, and they stand for the text put out.
spec fn accounts_for(
    tokens: Seq<Token>,
    pattern: Seq<char>,
    n: int,
    s: ScanState,
    dict: Map<Seq<char>, Seq<char>>,
) -> bool {
    &&& valid(tokens, dict)
    &&& s.out == text(tokens, dict)
    &&& match s.close {
        Some(q) => s.open is None && n == q + 1 && pattern.take(n) == spelling(tokens).push('}'),
        None => match s.open {
            Some(p) => {
                &&& p == spelling(tokens).len()
                &&& pattern.take(n) == spelling(tokens).push('{') + s.key
                &&& !s.key.contains('{')
                &&& !s.key.contains('}')
            },
            None => pattern.take(n) == spelling(tokens),
        },
    }
}

/// No continuation can clear the pending `}`: something has followed it that
/// was not a second `}`.
spec fn doomed(n: int, s: ScanState) -> bool {
    s.close matches Some(q) && q + 1 < n
}

proof fn lemma_spelling_push(tokens: Seq<Token>, token: Token, dict: Map<Seq<char>, Seq<char>>)
    requires
        valid(tokens, dict),
        token.valid(dict),
    ensures
        valid(tokens.push(token), dict),
        spelling(tokens.push(token)) == spelling(tokens) + token.spelling(),
        text(tokens.push(token), dict) == text(tokens, dict) + token.text(dict),
{
    assert(tokens.push(token).drop_last() =~= tokens);
}

/// The token that ends with the character `c`, read in state `before`, if one
/// ends there.
spec fn token_ending(before: ScanState, n: int, c: char) -> Option<Token> {
    if doomed(n, before) {
        None
    } else if c == '{' {
        if before.close is None && before.open is Some {
            Some(Token::OpenBrace)
        } else {
            None
        }
    } else if c == '}' {
        if before.close is Some {
            Some(Token::CloseBrace)
        } else if before.open is Some {
            Some(Token::Key(before.key))
        } else {
            None
        }
    } else if before.close is None && before.open is None {
        Some(Token::Plain(c))
    } else {
        None
    }
}

/// The tokens that end among the first `n` characters.
spec fn tokens_read(pattern: Seq<char>, n: int, dict: Map<Seq<char>, Seq<char>>) -> Seq<Token>
    decreases n,
{
    if n <= 0 {
        Seq::empty()
    } else {
        let read = tokens_read(pattern, n - 1, dict);
        match scan(pattern, n - 1, dict) {
            Ok(before) => match token_ending(before, n - 1, pattern[n - 1]) {
                Some(token) => read.push(token),
                None => read,
            },
            Err(_) => read,
        }
    }
}

/// The tokens read account for what the scan has read, unless the scan is
/// doomed.
proof fn lemma_scan_has_tokens(pattern: Seq<char>, n: int, dict: Map<Seq<char>, Seq<char>>)
    requires
        0 <= n <= pattern.len(),
        scan(pattern, n, dict) is Ok,
    ensures
        doomed(n, scan(pattern, n, dict)->Ok_0) || accounts_for(
            tokens_read(pattern, n, dict),
            pattern,
            n,
            scan(pattern, n, dict)->Ok_0,
            dict,
        ),
    decreases n,
{
    if n == 0 {
        assert(pattern.take(0) =~= Seq::empty());
    } else {
        lemma_scan_has_tokens(pattern, n - 1, dict);
        lemma_scan_consistent(pattern, n - 1, dict);
        let read = tokens_read(pattern, n - 1, dict);
        let before = scan(pattern, n - 1, dict)->Ok_0;
        let after = scan(pattern, n, dict)->Ok_0;
        let c = pattern[n - 1];
        assert(pattern.take(n) =~= pattern.take(n - 1).push(c));
        assert(before.out.push(c) =~= before.out + seq![c]);
        if let Some(token) = token_ending(before, n - 1, c) {
            lemma_spelling_push(read, token, dict);
            if token is OpenBrace {
                // The pending `{` stands just before `c`: no key lies between.
                assert(pattern.take(n - 1).len() == spelling(read).len() + 1 + before.key.len());
                assert(before.key =~= Seq::empty());
            }
            assert(pattern.take(n) =~= spelling(read) + token.spelling());
        } else if !doomed(n - 1, before) && before.close is None {
            if before.open is Some {
                assert(pattern.take(n) =~= spelling(read).push('{') + before.key.push(c));
                assert forall|j: int| 0 <= j < after.key.len() implies after.key[j] != '{'
                    && after.key[j] != '}' by {
                    if j < before.key.len() {
                        assert(before.key.contains(before.key[j]));
                    }
                }
            } else {
                assert(pattern.take(n) =~= spelling(read).push(c) + Seq::<char>::empty());
            }
        }
    }
}

/// A pattern that is formatted without fault is spelled by valid tokens, and
/// the text it is formatted to is what those tokens stand for.
pub proof fn lemma_formatted_has_tokens(pattern: Seq<char>, dict: Map<Seq<char>, Seq<char>>) -> (tokens:
    Seq<Token>)
    requires
        formatted(pattern, dict) is Ok,
    ensures
        valid(tokens, dict),
        spelling(tokens) == pattern,
        text(tokens, dict) == formatted(pattern, dict)->Ok_0,
{
    lemma_scan_has_tokens(pattern, pattern.len() as int, dict);
    assert(pattern.take(pattern.len() as int) =~= pattern);
    tokens_read(pattern, pattern.len() as int, dict)
}

} // verus!
