use dyn_formatting::{dynamic_format, Dictionary, DynamicFormatError, DynamicFormatErrorKind};

fn format(pattern: &str, pairs: &[(&str, &str)]) -> Result<String, Box<DynamicFormatError>> {
    dynamic_format(pattern, &Dictionary::from_pairs(pairs))
}

fn token_error(pattern: &str, pairs: &[(&str, &str)]) -> (usize, String) {
    match *format(pattern, pairs).unwrap_err() {
        DynamicFormatError { pattern: reported, pos, kind: DynamicFormatErrorKind::TokenError { desc } } => {
            assert_eq!(reported, pattern);
            (pos, desc)
        }
        other => panic!("expected a token error, got {:?}", other),
    }
}

fn key_error(pattern: &str, pairs: &[(&str, &str)]) -> (usize, String, Vec<(String, String)>) {
    match *format(pattern, pairs).unwrap_err() {
        DynamicFormatError { pattern: reported, pos, kind: DynamicFormatErrorKind::KeyError { key, entries } } => {
            assert_eq!(reported, pattern);
            (pos, key, entries)
        }
        other => panic!("expected a key error, got {:?}", other),
    }
}

const OPEN: &str = "Unmatched token '{'";
const CLOSE: &str = "Unmatched token '}'";

#[test]
fn brace_free_pattern_comes_back_unchanged() {
    let patterns = ["", " ", "plain text", "a:b,c;d", "new\nline\ttab", "ünï©ødé 日本語 🎉"];
    for pattern in patterns {
        assert_eq!(format(pattern, &[]).unwrap(), pattern);
        assert_eq!(format(pattern, &[("plain", "x"), ("", "y")]).unwrap(), pattern);
    }
}

#[test]
fn doubled_braces_stand_for_one() {
    assert_eq!(format("{{", &[]).unwrap(), "{");
    assert_eq!(format("}}", &[]).unwrap(), "}");
    assert_eq!(format("{{{{x}}", &[]).unwrap(), "{{x}");
    assert_eq!(format("{{}}", &[]).unwrap(), "{}");
    assert_eq!(format("}}{{", &[]).unwrap(), "}{");
    assert_eq!(format("a{{b}}c", &[("b", "no")]).unwrap(), "a{b}c");
}

#[test]
fn placeholders_are_replaced() {
    assert_eq!(format("{a}-{b}", &[("a", "1"), ("b", "2")]).unwrap(), "1-2");
    assert_eq!(
        format("I'm {name}. I'm {age} years old now.", &[("name", "ABC"), ("age", "20")]).unwrap(),
        "I'm ABC. I'm 20 years old now."
    );
    assert_eq!(format("{{{age} }}{age}", &[("age", "15")]).unwrap(), "{15 }15");
}

#[test]
fn a_key_may_be_used_again() {
    assert_eq!(format("{a}{a}", &[("a", "x")]).unwrap(), "xx");
    assert_eq!(format("{a}{b}{a}", &[("a", "x"), ("b", "")]).unwrap(), "xx");
}

#[test]
fn replacement_text_is_not_read_again() {
    assert_eq!(format("{a}", &[("a", "{b}"), ("b", "no")]).unwrap(), "{b}");
    assert_eq!(format("{a}{a}", &[("a", "}")]).unwrap(), "}}");
    assert_eq!(format("{a}", &[("a", "{")]).unwrap(), "{");
}

#[test]
fn keys_are_taken_as_written() {
    assert_eq!(format("{}", &[("", "empty")]).unwrap(), "empty");
    assert_eq!(format("{ a }", &[(" a ", "spaced")]).unwrap(), "spaced");
    assert_eq!(format("{a b}", &[("a b", "1"), ("a", "2")]).unwrap(), "1");
    assert_eq!(format("{ключ}", &[("ключ", "значение")]).unwrap(), "значение");
    assert_eq!(key_error("{}", &[("a", "1")]), (0, "".to_string(), vec![("a".into(), "1".into())]));
    assert_eq!(key_error("{A}", &[("a", "1")]).1, "A");
}

#[test]
fn missing_key_is_named() {
    let (pos, key, entries) = key_error("{missing}", &[("a", "1")]);
    assert_eq!(key, "missing");
    assert_eq!(pos, 0);
    assert_eq!(entries, vec![("a".to_string(), "1".to_string())]);
    let (pos, key, _) = key_error("I'm {name}. I'm {age} years old now.", &[("name", "ABC")]);
    assert_eq!((pos, key.as_str()), (16, "age"));
    let (pos, key, entries) = key_error("x{y}", &[]);
    assert_eq!((pos, key.as_str()), (1, "y"));
    assert!(entries.is_empty());
}

#[test]
fn key_error_lists_entries_in_insertion_order() {
    let pairs = [("zeta", "1"), ("alpha", "2"), ("mid", "3"), ("alpha", "4")];
    let (_, _, entries) = key_error("{none}", &pairs);
    assert_eq!(
        entries,
        vec![
            ("zeta".to_string(), "1".to_string()),
            ("alpha".to_string(), "4".to_string()),
            ("mid".to_string(), "3".to_string()),
        ]
    );
}

#[test]
fn unmatched_open_brace_is_reported_where_it_stands() {
    assert_eq!(token_error("{abc", &[]), (0, OPEN.to_string()));
    assert_eq!(token_error("{", &[]), (0, OPEN.to_string()));
    assert_eq!(token_error("abc{", &[]), (3, OPEN.to_string()));
    assert_eq!(token_error("{{{", &[]), (2, OPEN.to_string()));
    assert_eq!(token_error("{a{", &[("a", "1")]), (0, OPEN.to_string()));
    assert_eq!(token_error("I'm {name{name}}.", &[("name", "ABC")]), (4, OPEN.to_string()));
    assert_eq!(token_error("{a}{b", &[("a", "1"), ("b", "2")]), (3, OPEN.to_string()));
}

#[test]
fn unmatched_close_brace_is_reported_where_it_stands() {
    assert_eq!(token_error("name}3}24", &[]), (4, CLOSE.to_string()));
    assert_eq!(token_error("}", &[]), (0, CLOSE.to_string()));
    assert_eq!(token_error("a}", &[]), (1, CLOSE.to_string()));
    assert_eq!(token_error("}a}", &[]), (0, CLOSE.to_string()));
    assert_eq!(token_error("}}}", &[]), (2, CLOSE.to_string()));
    assert_eq!(token_error("{a}}", &[("a", "1")]), (3, CLOSE.to_string()));
    assert_eq!(token_error("} }", &[]), (0, CLOSE.to_string()));
}

#[test]
fn positions_count_characters_not_bytes() {
    assert_eq!(token_error("é{x", &[]), (1, OPEN.to_string()));
    assert_eq!(token_error("日本語}", &[]), (3, CLOSE.to_string()));
    assert_eq!(key_error("🎉🎉{k}", &[]).0, 2);
    assert_eq!(format("日本{k}語", &[("k", "かな")]).unwrap(), "日本かな語");
    assert_eq!(format("é{{é}}é", &[]).unwrap(), "é{é}é");
}

#[test]
fn only_the_first_fault_is_reported() {
    // A missing key before an unmatched brace.
    assert_eq!(key_error("{a}{b}{", &[("a", "1")]).0, 3);
    assert_eq!(key_error("{b}}", &[]).0, 0);
    // An unmatched brace before a missing key.
    assert_eq!(token_error("{x{y}", &[]), (0, OPEN.to_string()));
    assert_eq!(token_error("}{x}", &[]), (0, CLOSE.to_string()));
    assert_eq!(token_error("}x{y}", &[]), (0, CLOSE.to_string()));
    // Two unmatched braces.
    assert_eq!(token_error("a}b}c{", &[]), (1, CLOSE.to_string()));
    assert_eq!(token_error("{a{b{c", &[]), (0, OPEN.to_string()));
}

#[test]
fn what_follows_a_fault_does_not_matter() {
    let tails = ["", "x", "{", "}", "{a}", "{{", "}}", "{missing}", "}{"];
    for tail in tails {
        let pattern = format!("ab{{c{{{}", tail);
        assert_eq!(token_error(&pattern, &[("a", "1")]), (2, OPEN.to_string()));
        let pattern = format!("}}x}}{}", tail);
        assert_eq!(token_error(&pattern, &[("a", "1")]), (0, CLOSE.to_string()));
        let pattern = format!("{{a}}{{nope}}{}", tail);
        assert_eq!(key_error(&pattern, &[("a", "1")]).1, "nope");
    }
}

#[test]
fn at_the_end_a_pending_open_brace_is_reported_before_a_pending_close_brace() {
    assert_eq!(token_error("}{a", &[]), (1, OPEN.to_string()));
    assert_eq!(token_error("}{", &[]), (1, OPEN.to_string()));
    assert_eq!(token_error("}{{", &[]), (0, CLOSE.to_string()));
}

#[test]
fn an_error_comes_without_text() {
    let result = format("good {a} then {bad}", &[("a", "1")]);
    assert!(result.is_err());
    assert!(result.ok().is_none());
    let error = format("good {a} then }", &[("a", "1")]).unwrap_err();
    assert_eq!(error.pattern, "good {a} then }");
    assert_eq!(error.pos, 14);
}

#[test]
fn formatting_a_concatenation_concatenates() {
    let pairs = [("a", "1"), ("b", "two")];
    let parts = ["", "x", "{{", "}}", "{a}", "{b}{a}", "-{{{a}}}-", "plain"];
    for head in parts {
        for tail in parts {
            let whole = format!("{}{}", head, tail);
            let expected = format!("{}{}", format(head, &pairs).unwrap(), format(tail, &pairs).unwrap());
            assert_eq!(format(&whole, &pairs).unwrap(), expected);
        }
    }
    // A fault of the second part moves on by the length of the first.
    assert_eq!(token_error("{a}é{{{b", &pairs), (6, OPEN.to_string()));
    assert_eq!(token_error("{b", &pairs), (0, OPEN.to_string()));
}

#[test]
fn the_pattern_and_the_dictionary_are_left_as_they_were() {
    let dictionary = Dictionary::from_pairs(&[("a", "1")]);
    let pattern = String::from("{a}{b}");
    assert!(dynamic_format(&pattern, &dictionary).is_err());
    assert_eq!(pattern, "{a}{b}");
    assert_eq!(dictionary.entries(), vec![("a".to_string(), "1".to_string())]);
    assert_eq!(dynamic_format("{a}", &dictionary).unwrap(), "1");
    assert_eq!(dynamic_format("{a}", &dictionary).unwrap(), "1");
}
