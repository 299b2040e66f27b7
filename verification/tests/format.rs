use dyn_formatting::{dynamic_format, Dictionary, DynamicFormatError, DynamicFormatErrorKind};

fn format(pattern: &str, pairs: &[(&str, &str)]) -> Result<String, Box<DynamicFormatError>> {
    dynamic_format(&pattern.to_string(), &Dictionary::from_pairs(pairs))
}

#[test]
fn test_no_replace() {
    assert_eq!(format("", &[]).unwrap(), "".to_string());
    assert_eq!(format("abcdefg", &[]).unwrap(), "abcdefg".to_string());
    assert_eq!(format("abc", &[("abc", "")]).unwrap(), "abc".to_string());
    assert_eq!(format("we-have", &[("we", "")]).unwrap(), "we-have".to_string());
}

#[test]
fn test_escape() {
    assert_eq!(format("}}", &[]).unwrap(), "}".to_string());
    assert_eq!(format("{{ab}}", &[("ab", "1")]).unwrap(), "{ab}".to_string());
    assert_eq!(format("{{234", &[]).unwrap(), "{234".to_string());
    assert_eq!(format("{{{{a}}", &[]).unwrap(), "{{a}".to_string());
}

#[test]
fn test_replace() {
    assert_eq!(format("{ab}", &[("ab", "1")]).unwrap(), "1".to_string());
    assert_eq!(
        format("1{a}32{a}4", &[("a", "555"), ("b", "")]).unwrap(),
        "1555325554".to_string()
    );
    assert_eq!(
        format("{key1}-{key2}", &[("key1", "0"), ("key2", "a")]).unwrap(),
        "0-a".to_string()
    );
}

#[test]
fn test_mixed() {
    assert_eq!(format("{{{a}", &[("a", "1")]).unwrap(), "{1".to_string());
    assert_eq!(format("{{|{k}}}", &[("k", "x123")]).unwrap(), "{|x123}".to_string());
    assert_eq!(
        format("{{{key1}}}-}}}}{key2}", &[("key1", "0"), ("key2", "a")]).unwrap(),
        "{0}-}}a".to_string()
    );
}

#[test]
fn test_key_error() {
    match *format("{abc}", &[("abd", "1")]).unwrap_err() {
        DynamicFormatError {
            pattern,
            pos,
            kind: DynamicFormatErrorKind::KeyError { key, entries },
        } => {
            assert_eq!(pattern.as_str(), "{abc}");
            assert_eq!(key, "abc");
            assert_eq!(entries, vec![("abd".into(), "1".into())]);
            assert_eq!(pos, 0);
        }
        _ => unreachable!(),
    }
    match *format("234{ac}{ab}", &[("ac", "1"), ("aa", ".")]).unwrap_err() {
        DynamicFormatError {
            pos,
            kind: DynamicFormatErrorKind::KeyError { key, .. },
            ..
        } => {
            assert_eq!(key, "ab");
            assert_eq!(pos, 7);
        }
        _ => unreachable!(),
    }
}

#[test]
fn test_token_error() {
    match *format("{abc", &[("abc", "1")]).unwrap_err() {
        DynamicFormatError {
            pattern,
            pos,
            kind: DynamicFormatErrorKind::TokenError { desc },
        } => {
            assert_eq!(pattern.as_str(), "{abc");
            assert!(desc.contains("'{'"));
            assert_eq!(pos, 0);
        }
        _ => unreachable!(),
    }
    match *format("{{a}}}324", &[]).unwrap_err() {
        DynamicFormatError {
            pos,
            kind: DynamicFormatErrorKind::TokenError { desc },
            ..
        } => {
            assert!(desc.contains("'}'"));
            assert_eq!(pos, 5);
        }
        _ => unreachable!(),
    }
    match *format("{na{me}324", &[]).unwrap_err() {
        DynamicFormatError {
            pos,
            kind: DynamicFormatErrorKind::TokenError { desc },
            ..
        } => {
            assert!(desc.contains("'{'"));
            assert_eq!(pos, 0);
        }
        _ => unreachable!(),
    }
    match *format("name}3}24", &[]).unwrap_err() {
        DynamicFormatError {
            pos,
            kind: DynamicFormatErrorKind::TokenError { desc },
            ..
        } => {
            assert!(desc.contains("'}'"));
            assert_eq!(pos, 4);
        }
        _ => unreachable!(),
    }
}

#[test]
fn test_error_display() {
    println!("{}", format("name}3}24", &[]).unwrap_err().to_string());
    println!(
        "{}",
        format("234{ac}{ab}", &[("ac", "1"), ("aa", ".")]).unwrap_err().to_string()
    );
}
