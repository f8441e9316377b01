use hive_asar::split_path;
use hive_asar::strings::{format_u64, parse_u64, str_eq};

#[test]
fn split_plain_path() {
    assert_eq!(split_path("a/b/c"), vec!["a", "b", "c"]);
}

#[test]
fn split_skips_empty_and_dot_segments() {
    assert_eq!(split_path("/a//./b/"), vec!["a", "b"]);
}

#[test]
fn split_resolves_parent_segments() {
    assert_eq!(split_path("./a/../b"), vec!["b"]);
    assert_eq!(split_path("a/b/../../c/d/.."), vec!["c"]);
}

#[test]
fn split_parent_at_root_is_ignored() {
    assert!(split_path("../..").is_empty());
    assert_eq!(split_path("../x"), vec!["x"]);
}

#[test]
fn split_empty_path() {
    assert!(split_path("").is_empty());
    assert!(split_path("/").is_empty());
}

#[test]
fn split_keeps_dotted_names() {
    assert_eq!(split_path("...//.a/b."), vec!["...", ".a", "b."]);
}

#[test]
fn split_non_ascii_names() {
    assert_eq!(split_path("dossier/été/ファイル"), vec!["dossier", "été", "ファイル"]);
}

#[test]
fn split_result_is_normal_form() {
    let first = split_path("x/./y/../z//w");
    let joined = first.join("/");
    assert_eq!(split_path(&joined), first);
    assert_eq!(first, vec!["x", "z", "w"]);
}

#[test]
fn parse_u64_accepts_digits() {
    assert_eq!(parse_u64("0"), Some(0));
    assert_eq!(parse_u64("007"), Some(7));
    assert_eq!(parse_u64("+42"), Some(42));
    assert_eq!(parse_u64("18446744073709551615"), Some(u64::MAX));
}

#[test]
fn parse_u64_rejects_other_text() {
    assert_eq!(parse_u64(""), None);
    assert_eq!(parse_u64("+"), None);
    assert_eq!(parse_u64("-1"), None);
    assert_eq!(parse_u64("-0"), None);
    assert_eq!(parse_u64("++1"), None);
    assert_eq!(parse_u64("1 "), None);
    assert_eq!(parse_u64(" 1"), None);
    assert_eq!(parse_u64("1_000"), None);
    assert_eq!(parse_u64("18446744073709551616"), None);
    assert_eq!(parse_u64("99999999999999999999999"), None);
}

#[test]
fn parse_u64_agrees_with_std() {
    for s in ["", "+", "0", "+0", "-0", "12a", "4294967296", "18446744073709551615", "18446744073709551616", "٣"] {
        assert_eq!(parse_u64(s), s.parse::<u64>().ok(), "input {:?}", s);
    }
}

#[test]
fn format_u64_writes_decimal() {
    assert_eq!(format_u64(0), "0");
    assert_eq!(format_u64(7), "7");
    assert_eq!(format_u64(10), "10");
    assert_eq!(format_u64(1234567890), "1234567890");
    assert_eq!(format_u64(u64::MAX), "18446744073709551615");
}

#[test]
fn format_then_parse_roundtrip() {
    for n in [0u64, 1, 9, 10, 99, 100, 65535, 4294967296, u64::MAX - 1, u64::MAX] {
        assert_eq!(format_u64(n), n.to_string());
        assert_eq!(parse_u64(&format_u64(n)), Some(n));
    }
}

#[test]
fn str_eq_compares_characters() {
    assert!(str_eq("abc", "abc"));
    assert!(!str_eq("abc", "abd"));
    assert!(!str_eq("abc", "ab"));
    assert!(str_eq("", ""));
    assert!(str_eq("été", "été"));
}

#[test]
fn split_of_joined_paths_concatenates() {
    let p = "a/./b/../c";
    let q = "d//e/.";
    let joined = format!("{}/{}", p, q);
    let mut expected = split_path(p);
    expected.extend(split_path(q));
    assert_eq!(split_path(&joined), expected);
    assert_eq!(expected, vec!["a", "c", "d", "e"]);
}

#[test]
fn split_keeps_pieces_in_order() {
    let path = "z/y/../x/w";
    let pieces: Vec<&str> = path.split('/').collect();
    let segments = split_path(path);
    let mut at = 0;
    for s in &segments {
        while pieces[at] != *s {
            at += 1;
        }
        at += 1;
    }
    assert_eq!(segments, vec!["z", "x", "w"]);
}
