use shell::order::{lex_less, sorted_unique};
use shell::text::{decimal_string, join, parse_usize, trim_chars};
use shell::utils::{command_candidates, is_executable, listing_entry, FileMeta};

fn words(v: &[&str]) -> Vec<String> {
    v.iter().map(|s| s.to_string()).collect()
}

#[test]
fn decimal_strings() {
    assert_eq!(decimal_string(0), "0");
    assert_eq!(decimal_string(7), "7");
    assert_eq!(decimal_string(1234567), "1234567");
    assert_eq!(decimal_string(u64::MAX), u64::MAX.to_string());
}

#[test]
fn parse_usize_like_std() {
    for s in ["0", "42", "+7", "", "+", "-1", "12a", " 1", "007", "18446744073709551615", "18446744073709551616", "99999999999999999999999"] {
        assert_eq!(parse_usize(s), s.parse::<usize>().ok(), "input {:?}", s);
    }
}

#[test]
fn decimal_reads_back() {
    for n in [0usize, 9, 10, 99, 100, 65535, usize::MAX] {
        assert_eq!(parse_usize(&decimal_string(n as u64)), Some(n));
    }
}

#[test]
fn join_with_separator() {
    assert_eq!(join(&words(&["a", "b", "c"]), ", "), "a, b, c");
    assert_eq!(join(&words(&["a"]), " "), "a");
    assert_eq!(join(&words(&[]), " "), "");
}

#[test]
fn sorted_unique_sorts_and_dedups() {
    let v = words(&["b", "a", "b", "ab", "B", "é", "z"]);
    let mut expected = v.clone();
    expected.sort();
    expected.dedup();
    assert_eq!(sorted_unique(&v), expected);
    assert_eq!(sorted_unique(&words(&[])), Vec::<String>::new());
}

#[test]
fn lex_order_is_string_order() {
    let pairs = [("Z", "a"), ("a", "ab"), ("ab", "b"), ("z", "é"), ("", "a"), ("a", "a")];
    for (x, y) in pairs {
        let xv: Vec<char> = x.chars().collect();
        let yv: Vec<char> = y.chars().collect();
        assert_eq!(lex_less(&xv, &yv), x < y);
        assert_eq!(lex_less(&yv, &xv), y < x);
    }
}

#[test]
fn trim_like_std() {
    for s in ["  a b \r", "\t\n", "", "x", "\u{3000}y\u{a0}"] {
        let v: Vec<char> = s.chars().collect();
        let t: String = trim_chars(&v).into_iter().collect();
        assert_eq!(t, s.trim());
    }
}

#[test]
fn executable_bits() {
    assert!(is_executable(Some(FileMeta { is_file: true, mode: 0o100755 })));
    assert!(is_executable(Some(FileMeta { is_file: true, mode: 0o100001 })));
    assert!(!is_executable(Some(FileMeta { is_file: true, mode: 0o100644 })));
    assert!(!is_executable(Some(FileMeta { is_file: false, mode: 0o40755 })));
    assert!(!is_executable(None));
}

#[test]
fn listing_entries() {
    assert_eq!(listing_entry("src".to_string(), true), "src/");
    assert_eq!(listing_entry("a.rs".to_string(), false), "a.rs");
}

#[test]
fn command_candidates_add_builtins() {
    assert_eq!(command_candidates(words(&["ls"])), words(&["ls", "exit", "echo"]));
}
