use zenscript_toolkit::words::{bracket_hover_range, bracket_word_range, is_word_byte, loose_word_range};

#[test]
fn word_bytes() {
    for b in b"azAZ09_-:.<".iter() {
        assert!(is_word_byte(*b));
    }
    for b in b" >=(\"\t".iter() {
        assert!(!is_word_byte(*b));
    }
    assert!(!is_word_byte(0xc3));
}

#[test]
fn word_range_around_cursor() {
    let line = "recipes.remove(<item:minecraft:dia";
    let col = line.len();
    assert_eq!(
        bracket_word_range(line, col),
        Some(("<item:minecraft:dia".to_string(), 15, col))
    );
    assert_eq!(bracket_word_range("foo bar", 3), Some(("foo".to_string(), 0, 3)));
    assert_eq!(bracket_word_range("foo bar", 4), Some(("bar".to_string(), 4, 7)));
    assert_eq!(bracket_word_range("a  b", 2), None);
    assert_eq!(bracket_word_range("", 0), None);
    assert_eq!(loose_word_range("x é <y", 6), Some(("<y".to_string(), 5, 7)));
}

#[test]
fn hover_finds_the_bracket_under_the_cursor() {
    let line = "recipes.remove(<item:minecraft:diamond>);";
    let r = bracket_hover_range(line, 20).unwrap();
    assert_eq!(r, ("<item:minecraft:diamond>".to_string(), 15, 39));
    let at_lt = bracket_hover_range(line, 15).unwrap();
    assert_eq!(at_lt.0, "<item:minecraft:diamond>");
    assert_eq!(bracket_hover_range(line, 0), None);
    assert_eq!(bracket_hover_range("", 0), None);
}

#[test]
fn hover_drops_zero_metadata() {
    let r = bracket_hover_range("<item:minecraft:wool:0>", 3).unwrap();
    assert_eq!(r, ("<item:minecraft:wool>".to_string(), 0, 23));
}

#[test]
fn hover_without_closing_runs_to_end_of_line() {
    let r = bracket_hover_range("x <item:a", 4).unwrap();
    assert_eq!(r, ("<item:a".to_string(), 2, 9));
}

#[test]
fn hover_byte_offsets_count_utf8() {
    let line = "é <a>";
    let r = bracket_hover_range(line, 4).unwrap();
    assert_eq!(r, ("<a>".to_string(), 3, 6));
}
