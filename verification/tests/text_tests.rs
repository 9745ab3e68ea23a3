use zenscript_toolkit::server::nth_line;
use zenscript_toolkit::text::{
    char_is_whitespace, chars_of, contains_in, find_in, push_str, str_equal, string_from, trim_in,
    trim_start_in,
};

#[test]
fn whitespace_matches_std() {
    for u in 0u32..=0x10FFFF {
        if let Some(c) = char::from_u32(u) {
            assert_eq!(char_is_whitespace(c), c.is_whitespace(), "U+{u:04X}");
        }
    }
}

#[test]
fn lines_match_std() {
    let samples = [
        "", "a", "a\n", "a\nb", "a\r\nb\r\n", "a\r", "a\r\r\n", "\n\n", "\r\n", "x\ny\r\nz\r",
        "é\nü\r\n日本", "\rstart",
    ];
    for s in samples.iter() {
        let expected: Vec<&str> = s.lines().collect();
        for (n, line) in expected.iter().enumerate() {
            assert_eq!(nth_line(s, n).as_deref(), Some(*line), "{s:?} line {n}");
        }
        assert_eq!(nth_line(s, expected.len()), None, "{s:?}");
    }
}

#[test]
fn search_and_trim_match_std() {
    let samples = ["", " = ", "a = b = c", "  padded\t ", "\u{3000}wide\u{a0}", "no sep", "x=y", "é = ü"];
    let sep = chars_of(" = ");
    for s in samples.iter() {
        let cs = chars_of(s);
        let n = cs.len();
        let found = find_in(&cs, 0, n, &sep);
        let expected = s.find(" = ").map(|b| s[..b].chars().count());
        assert_eq!(found, expected, "{s:?}");
        assert_eq!(contains_in(&cs, 0, n, &sep), s.contains(" = "));
        let (a, b) = trim_in(&cs, 0, n);
        assert_eq!(string_from(&cs, a, b), s.trim());
        let a = trim_start_in(&cs, 0, n);
        assert_eq!(string_from(&cs, a, n), s.trim_start());
    }
}

#[test]
fn string_building() {
    let mut s = String::from("ab");
    push_str(&mut s, "cé");
    assert_eq!(s, "abcé");
    let cs = chars_of("héllo");
    assert_eq!(cs, vec!['h', 'é', 'l', 'l', 'o']);
    assert_eq!(string_from(&cs, 1, 4), "éll");
    assert!(str_equal("ab", "ab"));
    assert!(!str_equal("ab", "abc"));
    assert!(!str_equal("ab", "ac"));
}
