//! What holds of every pattern and every dictionary.
//!
//! The first group of laws says how the outcome for a whole pattern follows
//! from its parts: text without braces, the two escapes, a placeholder, and
//! one pattern put before another. The second group is about faults: only the
//! first one counts, and it points at the brace that it blames.

use crate::model::{brace_free, formatted, scan, step, Fault, ScanState};
use vstd::prelude::*;

verus! {

/// A pattern without braces is formatted to itself, whatever the dictionary
/// holds.
pub proof fn lemma_brace_free_identity(pattern: Seq<char>, dict: Map<Seq<char>, Seq<char>>)
    requires
        brace_free(pattern),
    ensures
        formatted(pattern, dict) == Ok::<Seq<char>, Fault>(pattern),
{
    lemma_brace_free_scan(pattern, pattern.len() as int, dict);
    assert(pattern.take(pattern.len() as int) =~= pattern);
}

proof fn lemma_brace_free_scan(pattern: Seq<char>, n: int, dict: Map<Seq<char>, Seq<char>>)
    requires
        brace_free(pattern),
        0 <= n <= pattern.len(),
    ensures
        scan(pattern, n, dict) == Ok::<ScanState, Fault>(
            ScanState { open: None, close: None, key: Seq::empty(), out: pattern.take(n) },
        ),
    decreases n,
{
    if n == 0 {
        assert(pattern.take(0) =~= Seq::empty());
    } else {
        lemma_brace_free_scan(pattern, n - 1, dict);
        assert(pattern.contains(pattern[n - 1]));
        assert(pattern.take(n - 1).push(pattern[n - 1]) =~= pattern.take(n));
    }
}

/// A doubled brace stands for one brace.
pub proof fn lemma_escapes(dict: Map<Seq<char>, Seq<char>>)
    ensures
        formatted(seq!['{', '{'], dict) == Ok::<Seq<char>, Fault>(seq!['{']),
        formatted(seq!['}', '}'], dict) == Ok::<Seq<char>, Fault>(seq!['}']),
{
    reveal_with_fuel(scan, 3);
    assert(Seq::<char>::empty().push('{') =~= seq!['{']);
    assert(Seq::<char>::empty().push('}') =~= seq!['}']);
}

/// The pattern made of a `{`, the characters of `key` and a `}`.
pub open spec fn placeholder(key: Seq<char>) -> Seq<char> {
    seq!['{'] + key + seq!['}']
}

/// A placeholder stands for the text that the dictionary holds for its key,
/// and is a missing key at position 0 where the dictionary holds none.
pub proof fn lemma_placeholder(key: Seq<char>, dict: Map<Seq<char>, Seq<char>>)
    requires
        brace_free(key),
    ensures
        formatted(placeholder(key), dict) == if dict.contains_key(key) {
            Ok::<Seq<char>, Fault>(dict[key])
        } else {
            Err(Fault::MissingKey { pos: 0, key })
        },
{
    let pattern = placeholder(key);
    let n = key.len() as int;
    assert(pattern.take(n + 1) =~= seq!['{'] + key);
    lemma_scan_key(pattern, key, dict);
    assert(pattern[n + 1] == '}');
    assert(Seq::<char>::empty() + dict[key] =~= dict[key]);
}

/// After a `{` and the characters of a key, the `{` is pending and the key
/// is gathered.
proof fn lemma_scan_key(pattern: Seq<char>, key: Seq<char>, dict: Map<Seq<char>, Seq<char>>)
    requires
        brace_free(key),
        key.len() < pattern.len(),
        pattern.take(key.len() as int + 1) == seq!['{'] + key,
    ensures
        scan(pattern, key.len() as int + 1, dict) == Ok::<ScanState, Fault>(
            ScanState { open: Some(0int), close: None, key, out: Seq::empty() },
        ),
    decreases key.len(),
{
    let n = key.len() as int;
    assert(pattern[0] == pattern.take(n + 1)[0]);
    if n == 0 {
        reveal_with_fuel(scan, 2);
        assert(key =~= Seq::empty());
    } else {
        let shorter = key.drop_last();
        assert(pattern.take(n) =~= seq!['{'] + shorter) by {
            assert(pattern.take(n) =~= pattern.take(n + 1).take(n));
        }
        assert forall|j: int| 0 <= j < shorter.len() implies shorter[j] != '{' && shorter[j]
            != '}' by {
            assert(key.contains(key[j]));
        }
        lemma_scan_key(pattern, shorter, dict);
        assert(pattern[n] == pattern.take(n + 1)[n]);
        assert(key.contains(key[n - 1]));
        assert(shorter.push(key[n - 1]) =~= key);
    }
}

/// After a `}` and text without braces, the `}` is pending and the text is
/// put out.
proof fn lemma_scan_after_close(
    pattern: Seq<char>,
    text: Seq<char>,
    dict: Map<Seq<char>, Seq<char>>,
)
    requires
        brace_free(text),
        text.len() < pattern.len(),
        pattern.take(text.len() as int + 1) == seq!['}'] + text,
    ensures
        scan(pattern, text.len() as int + 1, dict) == Ok::<ScanState, Fault>(
            ScanState { open: None, close: Some(0int), key: Seq::empty(), out: text },
        ),
    decreases text.len(),
{
    let n = text.len() as int;
    assert(pattern[0] == pattern.take(n + 1)[0]);
    if n == 0 {
        reveal_with_fuel(scan, 2);
        assert(text =~= Seq::empty());
    } else {
        let shorter = text.drop_last();
        assert(pattern.take(n) =~= seq!['}'] + shorter) by {
            assert(pattern.take(n) =~= pattern.take(n + 1).take(n));
        }
        assert forall|j: int| 0 <= j < shorter.len() implies shorter[j] != '{' && shorter[j]
            != '}' by {
            assert(text.contains(text[j]));
        }
        lemma_scan_after_close(pattern, shorter, dict);
        assert(pattern[n] == pattern.take(n + 1)[n]);
        assert(text.contains(text[n - 1]));
        assert(shorter.push(text[n - 1]) =~= text);
    }
}

/// `fault` as it reads when `by` characters stand before the pattern.
pub open spec fn shifted(fault: Fault, by: int) -> Fault {
    match fault {
        Fault::UnmatchedOpen { pos } => Fault::UnmatchedOpen { pos: pos + by },
        Fault::UnmatchedClose { pos } => Fault::UnmatchedClose { pos: pos + by },
        Fault::MissingKey { pos, key } => Fault::MissingKey { pos: pos + by, key },
    }
}

/// `s` as it reads when `by` characters that produced `before` stand before
/// the pattern.
spec fn moved(s: ScanState, by: int, before: Seq<char>) -> ScanState {
    ScanState {
        open: match s.open {
            Some(p) => Some(p + by),
            None => None,
        },
        close: match s.close {
            Some(p) => Some(p + by),
            None => None,
        },
        key: s.key,
        out: before + s.out,
    }
}

spec fn moved_outcome(r: Result<ScanState, Fault>, by: int, before: Seq<char>) -> Result<
    ScanState,
    Fault,
> {
    match r {
        Ok(s) => Ok(moved(s, by, before)),
        Err(fault) => Err(shifted(fault, by)),
    }
}

proof fn lemma_step_moved(
    s: ScanState,
    i: int,
    c: char,
    dict: Map<Seq<char>, Seq<char>>,
    by: int,
    before: Seq<char>,
)
    ensures
        step(moved(s, by, before), i + by, c, dict) == moved_outcome(
            step(s, i, c, dict),
            by,
            before,
        ),
{
    assert((before + s.out).push(c) =~= before + s.out.push(c));
    if dict.contains_key(s.key) {
        assert((before + s.out) + dict[s.key] =~= before + (s.out + dict[s.key]));
    }
}

proof fn lemma_scan_after_head(
    head: Seq<char>,
    tail: Seq<char>,
    m: int,
    dict: Map<Seq<char>, Seq<char>>,
)
    requires
        formatted(head, dict) is Ok,
        0 <= m <= tail.len(),
    ensures
        scan(head + tail, head.len() + m, dict) == moved_outcome(
            scan(tail, m, dict),
            head.len() as int,
            formatted(head, dict)->Ok_0,
        ),
    decreases m,
{
    let by = head.len() as int;
    let before = formatted(head, dict)->Ok_0;
    if m == 0 {
        assert((head + tail).take(by) =~= head.take(by));
        lemma_scan_reads_prefix(head, head + tail, by, dict);
        lemma_scan_consistent(head, by, dict);
        assert(before + Seq::<char>::empty() =~= before);
    } else {
        lemma_scan_after_head(head, tail, m - 1, dict);
        assert((head + tail)[by + m - 1] == tail[m - 1]);
        if let Ok(s) = scan(tail, m - 1, dict) {
            lemma_step_moved(s, m - 1, tail[m - 1], dict, by, before);
        }
    }
}

/// A pattern that is formatted without fault can be put before any other
/// without changing what the other stands for: the texts follow one another,
/// and a fault of the second pattern is reported as many characters further
/// on as the first pattern is long.
pub proof fn lemma_formatted_concat(
    head: Seq<char>,
    tail: Seq<char>,
    dict: Map<Seq<char>, Seq<char>>,
)
    requires
        formatted(head, dict) is Ok,
    ensures
        formatted(head + tail, dict) == match formatted(tail, dict) {
            Ok(text) => Ok::<Seq<char>, Fault>(formatted(head, dict)->Ok_0 + text),
            Err(fault) => Err(shifted(fault, head.len() as int)),
        },
{
    lemma_scan_after_head(head, tail, tail.len() as int, dict);
}

/// The scan of the first `n` characters looks at nothing beyond them.
pub proof fn lemma_scan_reads_prefix(
    pattern: Seq<char>,
    other: Seq<char>,
    n: int,
    dict: Map<Seq<char>, Seq<char>>,
)
    requires
        0 <= n <= pattern.len(),
        n <= other.len(),
        other.take(n) == pattern.take(n),
    ensures
        scan(other, n, dict) == scan(pattern, n, dict),
    decreases n,
{
    if n > 0 {
        assert(other.take(n - 1) =~= other.take(n).take(n - 1));
        assert(pattern.take(n - 1) =~= pattern.take(n).take(n - 1));
        lemma_scan_reads_prefix(pattern, other, n - 1, dict);
        assert(other[n - 1] == other.take(n)[n - 1]);
        assert(pattern[n - 1] == pattern.take(n)[n - 1]);
    }
}

/// A fault met among the first `n` characters is still the outcome after `m`.
pub proof fn lemma_fault_persists(
    pattern: Seq<char>,
    n: int,
    m: int,
    dict: Map<Seq<char>, Seq<char>>,
)
    requires
        0 <= n <= m,
        scan(pattern, n, dict) is Err,
    ensures
        scan(pattern, m, dict) == scan(pattern, n, dict),
    decreases m - n,
{
    if n < m {
        lemma_fault_persists(pattern, n, m - 1, dict);
    }
}

/// Only the first fault is reported: once the scan of a pattern's first `n`
/// characters has met a fault, that fault is the outcome for every pattern
/// that begins with those characters, whatever follows them.
pub proof fn lemma_first_fault_stands(
    pattern: Seq<char>,
    other: Seq<char>,
    n: int,
    dict: Map<Seq<char>, Seq<char>>,
)
    requires
        0 <= n <= pattern.len(),
        n <= other.len(),
        other.take(n) == pattern.take(n),
        scan(pattern, n, dict) is Err,
    ensures
        formatted(other, dict) == Err::<Seq<char>, Fault>(scan(pattern, n, dict)->Err_0),
{
    lemma_scan_reads_prefix(pattern, other, n, dict);
    lemma_fault_persists(other, n, other.len() as int, dict);
}

/// What every state that a scan of the first `n` characters can reach has in
/// common: a pending brace lies among those characters and is the brace it
/// is taken for, a pending `{` is followed by the key and nothing else, and a
/// `}` pending together with a `{` lies before it.
pub open spec fn consistent(pattern: Seq<char>, n: int, s: ScanState) -> bool {
    &&& s.open matches Some(p) ==> {
        &&& 0 <= p < n
        &&& pattern[p] == '{'
        &&& s.key == pattern.subrange(p + 1, n)
        &&& brace_free(s.key)
    }
    &&& s.open is None ==> s.key == Seq::<char>::empty()
    &&& s.close matches Some(q) ==> {
        &&& 0 <= q < n
        &&& pattern[q] == '}'
        &&& s.open matches Some(p) ==> q < p
    }
}

/// Every state that a scan reaches is consistent with the characters read.
pub proof fn lemma_scan_consistent(pattern: Seq<char>, n: int, dict: Map<Seq<char>, Seq<char>>)
    requires
        0 <= n <= pattern.len(),
        scan(pattern, n, dict) is Ok,
    ensures
        consistent(pattern, n, scan(pattern, n, dict)->Ok_0),
    decreases n,
{
    if n > 0 {
        lemma_scan_consistent(pattern, n - 1, dict);
        let before = scan(pattern, n - 1, dict)->Ok_0;
        let after = scan(pattern, n, dict)->Ok_0;
        if let Some(p) = after.open {
            assert(after.key =~= pattern.subrange(p + 1, n));
            assert forall|j: int| 0 <= j < after.key.len() implies after.key[j] != '{'
                && after.key[j] != '}' by {
                if j < before.key.len() {
                    assert(before.key.contains(before.key[j]));
                }
            }
        } else {
            assert(after.key =~= Seq::empty());
        }
    }
}

/// The length of the shortest prefix whose scan fails, among the first `n`
/// characters.
proof fn first_failing_prefix(pattern: Seq<char>, n: int, dict: Map<Seq<char>, Seq<char>>) -> (m:
    int)
    requires
        0 <= n <= pattern.len(),
        scan(pattern, n, dict) is Err,
    ensures
        0 < m <= n,
        scan(pattern, m - 1, dict) is Ok,
        scan(pattern, m, dict) is Err,
    decreases n,
{
    if scan(pattern, n - 1, dict) is Ok {
        n
    } else {
        first_failing_prefix(pattern, n - 1, dict)
    }
}

/// A fault points at the brace it blames. An unmatched brace is the brace at
/// the reported position. A missing key is spelled out in the pattern between
/// the `{` at the reported position and the next `}`, holds no brace, and is
/// not a key of the dictionary.
pub proof fn lemma_fault_points_at_brace(pattern: Seq<char>, dict: Map<Seq<char>, Seq<char>>)
    requires
        formatted(pattern, dict) is Err,
    ensures
        match formatted(pattern, dict)->Err_0 {
            Fault::UnmatchedOpen { pos } => 0 <= pos < pattern.len() && pattern[pos] == '{',
            Fault::UnmatchedClose { pos } => 0 <= pos < pattern.len() && pattern[pos] == '}',
            Fault::MissingKey { pos, key } => {
                &&& 0 <= pos
                &&& pos + 1 + key.len() < pattern.len()
                &&& pattern[pos] == '{'
                &&& pattern.subrange(pos + 1, pos + 1 + key.len()) == key
                &&& pattern[pos + 1 + key.len()] == '}'
                &&& brace_free(key)
                &&& !dict.contains_key(key)
            },
        },
{
    let len = pattern.len() as int;
    if scan(pattern, len, dict) is Ok {
        lemma_scan_consistent(pattern, len, dict);
    } else {
        let n = first_failing_prefix(pattern, len, dict);
        lemma_scan_consistent(pattern, n - 1, dict);
        lemma_fault_persists(pattern, n, len, dict);
        if let Fault::MissingKey { pos, key } = scan(pattern, n, dict)->Err_0 {
            assert(key.len() == n - 1 - (pos + 1));
        }
    }
}

/// A `{` that is followed by a key and then by the end of the pattern or by
/// another `{` is unmatched, whatever comes after that second `{`.
pub proof fn lemma_unclosed_placeholder(
    key: Seq<char>,
    rest: Seq<char>,
    dict: Map<Seq<char>, Seq<char>>,
)
    requires
        brace_free(key),
    ensures
        formatted(seq!['{'] + key, dict) == Err::<Seq<char>, Fault>(
            Fault::UnmatchedOpen { pos: 0 },
        ),
        key.len() > 0 ==> formatted(seq!['{'] + key + seq!['{'] + rest, dict) == Err::<
            Seq<char>,
            Fault,
        >(Fault::UnmatchedOpen { pos: 0 }),
{
    let n = key.len() as int;
    let ended = seq!['{'] + key + seq!['}'];
    assert(ended.take(n + 1) =~= seq!['{'] + key);
    lemma_scan_key(ended, key, dict);
    let alone = seq!['{'] + key;
    assert(alone.take(n + 1) =~= ended.take(n + 1));
    lemma_scan_reads_prefix(ended, alone, n + 1, dict);
    if n > 0 {
        let reopened = seq!['{'] + key + seq!['{'] + rest;
        assert(reopened.take(n + 1) =~= seq!['{'] + key);
        lemma_scan_key(reopened, key, dict);
        assert(reopened[n + 1] == '{');
        lemma_fault_persists(reopened, n + 2, reopened.len() as int, dict);
    }
}

/// A `}` that is followed by text without braces and then by the end of the
/// pattern or by another `}` is unmatched, whatever comes after that second
/// `}`, unless the second follows the first at once.
pub proof fn lemma_unopened_close(
    text: Seq<char>,
    rest: Seq<char>,
    dict: Map<Seq<char>, Seq<char>>,
)
    requires
        brace_free(text),
    ensures
        formatted(seq!['}'] + text, dict) == Err::<Seq<char>, Fault>(
            Fault::UnmatchedClose { pos: 0 },
        ),
        text.len() > 0 ==> formatted(seq!['}'] + text + seq!['}'] + rest, dict) == Err::<
            Seq<char>,
            Fault,
        >(Fault::UnmatchedClose { pos: 0 }),
{
    let n = text.len() as int;
    let closed = seq!['}'] + text + seq!['}'] + rest;
    assert(closed.take(n + 1) =~= seq!['}'] + text);
    lemma_scan_after_close(closed, text, dict);
    let alone = seq!['}'] + text;
    assert(alone.take(n + 1) =~= closed.take(n + 1));
    lemma_scan_reads_prefix(closed, alone, n + 1, dict);
    if n > 0 {
        assert(closed[n + 1] == '}');
        lemma_fault_persists(closed, n + 2, closed.len() as int, dict);
    }
}

} // verus!
