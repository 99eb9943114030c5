use kordrel::text::{decimal_text, is_blank, join, natural_text, pad, parse_integer, same};

#[test]
fn integers_are_read_like_the_standard_library_reads_them() {
    for s in [
        "", "0", "-0", "+0", "7", "-7", "+7", "007", " 7", "7 ", "1_0", "a", "-", "+", "--1",
        "9223372036854775807", "9223372036854775808", "-9223372036854775808",
        "-9223372036854775809", "99999999999999999999999999999999999999999999", "١", "1e3",
        "00000000000000000000000000000000000000000000001",
    ] {
        assert_eq!(parse_integer(s), s.parse::<i64>().ok(), "{}", s);
    }
}

#[test]
fn numbers_are_written_like_the_standard_library_writes_them() {
    for n in [0, 1, 9, 10, 11, 99, 100, 12345, -1, -10, i64::MAX, i64::MIN] {
        assert_eq!(decimal_text(n), n.to_string());
    }
    for n in [0, 10, u64::MAX] {
        assert_eq!(natural_text(n), n.to_string());
    }
}

#[test]
fn blank_means_nothing_left_after_trimming() {
    for s in [
        "", " ", "\t\n\r", "\u{85}", "\u{a0}", "\u{1680}", "\u{2003}", "\u{2028}", "\u{3000}", "a",
        " a ", "\u{200b}", "\u{feff}", "\u{180e}",
    ] {
        assert_eq!(is_blank(s), s.trim().is_empty(), "{:?}", s);
    }
}

#[test]
fn every_character_is_blank_like_in_the_standard_library() {
    for c in '\0'..='\u{ffff}' {
        let s = c.to_string();
        assert_eq!(is_blank(&s), s.trim().is_empty(), "{:?}", c);
    }
}

#[test]
fn joining() {
    assert_eq!(join(&vec![], ", "), "");
    assert_eq!(join(&vec!["a".to_string()], ", "), "a");
    assert_eq!(
        join(&vec!["a".to_string(), "é".to_string(), "".to_string()], ", "),
        "a, é, "
    );
}

#[test]
fn padding() {
    assert_eq!(pad("été", 6), format!("{:<6}", "été"));
    assert_eq!(pad("abcdef", 3), "abcdef");
    assert_eq!(pad("", 0), "");
}

#[test]
fn comparing() {
    assert!(same("a", "a"));
    assert!(!same("a", "A"));
    assert!(!same("a", "ab"));
}
