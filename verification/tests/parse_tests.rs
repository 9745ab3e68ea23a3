use zenscript_toolkit::parse::{merge_additional, parse_ct_log};
use zenscript_toolkit::string_map::StringMap;

fn entries(m: &StringMap) -> Vec<(String, String)> {
    m.to_vec()
}

fn pair(k: &str, v: &str) -> (String, String) {
    (k.to_string(), v.to_string())
}

#[test]
fn parse_reads_the_dump_block() {
    let log = "junk\n[ZSBC DUMPER START]\n<item:minecraft:diamond> = Diamond\n<item:minecraft:stick> = Stick\n[ZSBC DUMPER END]\ntrailer\n";
    let m = parse_ct_log(log).expect("a block");
    assert_eq!(
        entries(&m),
        vec![pair("<item:minecraft:diamond>", "Diamond"), pair("<item:minecraft:stick>", "Stick")]
    );
}

#[test]
fn parse_last_block_wins() {
    let log = "[ZSBC DUMPER START]\n<a> = old\n[ZSBC DUMPER END]\n[ZSBC DUMPER START]\n<b> = new\n[ZSBC DUMPER END]\n";
    let m = parse_ct_log(log).unwrap();
    assert_eq!(entries(&m), vec![pair("<b>", "new")]);
}

#[test]
fn parse_without_end_marker_is_none() {
    assert!(parse_ct_log("[ZSBC DUMPER START]\n<a> = b\n").is_none());
}

#[test]
fn parse_without_start_before_end_is_none() {
    assert!(parse_ct_log("<a> = b\n[ZSBC DUMPER END]\n[ZSBC DUMPER START]\n").is_none());
}

#[test]
fn parse_empty_block_is_none() {
    assert!(parse_ct_log("[ZSBC DUMPER START]\nno entries here\n[ZSBC DUMPER END]").is_none());
    assert!(parse_ct_log("").is_none());
}

#[test]
fn parse_trims_and_skips_bad_lines() {
    let log = "x [ZSBC DUMPER START] y\r\n   <k1>   =   v1  \r\n = nokey\nno separator\n<k2> = a = b\n[ZSBC DUMPER END]";
    let m = parse_ct_log(log).unwrap();
    assert_eq!(entries(&m), vec![pair("<k1>", "v1"), pair("<k2>", "a = b")]);
}

#[test]
fn parse_later_duplicate_wins() {
    let log = "[ZSBC DUMPER START]\n<k> = first\n<k> = second\n[ZSBC DUMPER END]\n";
    let m = parse_ct_log(log).unwrap();
    assert_eq!(m.get("<k>").map(|s| s.as_str()), Some("second"));
    assert_eq!(m.len(), 1);
}

#[test]
fn parse_keys_come_out_sorted() {
    let log = "[ZSBC DUMPER START]\n<z> = 1\n<a> = 2\n<m> = 3\n<é> = 4\n[ZSBC DUMPER END]\n";
    let m = parse_ct_log(log).unwrap();
    let keys: Vec<String> = entries(&m).into_iter().map(|(k, _)| k).collect();
    let mut sorted = keys.clone();
    sorted.sort();
    assert_eq!(keys, sorted);
    assert_eq!(keys, vec!["<a>", "<m>", "<z>", "<é>"]);
}

#[test]
fn parse_earlier_text_does_not_matter() {
    let log = "[ZSBC DUMPER START]\n<k> = v\n[ZSBC DUMPER END]\n";
    let before = "[ZSBC DUMPER START]\n<old> = x\n[ZSBC DUMPER END]\nsome line\n";
    let a = parse_ct_log(log).unwrap().to_vec();
    let b = parse_ct_log(&format!("{before}{log}")).unwrap().to_vec();
    assert_eq!(a, b);
}

#[test]
fn merge_adds_only_bracket_lines_and_keeps_existing() {
    let mut m = parse_ct_log("[ZSBC DUMPER START]\n<a> = A\n[ZSBC DUMPER END]").unwrap();
    merge_additional(&mut m, "<a> = other\n  <b> = B\nc = C\n<b> = second\n<> = empty key? no\n   = x\n");
    assert_eq!(
        entries(&m),
        vec![pair("<>", "empty key? no"), pair("<a>", "A"), pair("<b>", "B")]
    );
}

#[test]
fn merge_twice_changes_nothing() {
    let list = "<x> = 1\n<y> = 2\n<x> = 3\n";
    let mut m = StringMap::new();
    merge_additional(&mut m, list);
    let once = m.to_vec();
    merge_additional(&mut m, list);
    assert_eq!(m.to_vec(), once);
    assert_eq!(once, vec![pair("<x>", "1"), pair("<y>", "2")]);
}

#[test]
fn merge_splits_on_the_untrimmed_line() {
    let mut m = StringMap::new();
    merge_additional(&mut m, "\t<k>\t= not a separator\n\t<k2> = v2\n");
    assert_eq!(entries(&m), vec![pair("<k2>", "v2")]);
}

#[test]
fn parse_surrounding_text_does_not_matter() {
    let log = "[ZSBC DUMPER START]\n<k> = v\n[ZSBC DUMPER END]";
    let before = "[ZSBC DUMPER START]\n<old> = x\n[ZSBC DUMPER END]";
    let after = "[ZSBC DUMPER START]\n<late> = y";
    let a = parse_ct_log(log).unwrap().to_vec();
    let b = parse_ct_log(&format!("{before}\n{log}\n{after}")).unwrap().to_vec();
    assert_eq!(a, b);
    let empty_block = "[ZSBC DUMPER START]\nnothing\n[ZSBC DUMPER END]";
    assert!(parse_ct_log(empty_block).is_none());
    assert!(parse_ct_log(&format!("{before}\n{empty_block}\n{after}")).is_none());
}

#[test]
fn merge_in_two_steps_is_merge_of_joined_lists() {
    let first = "<a> = 1\n<b> = 2";
    let second = "<b> = 3\n<c> = 4\n";
    let mut m1 = StringMap::new();
    m1.insert("<z>".to_string(), "0".to_string());
    let mut m2 = StringMap::new();
    m2.insert("<z>".to_string(), "0".to_string());
    merge_additional(&mut m1, first);
    merge_additional(&mut m1, second);
    merge_additional(&mut m2, &format!("{first}\n{second}"));
    assert_eq!(m1.to_vec(), m2.to_vec());
}

#[test]
fn parse_surrounding_text_does_not_matter_after_carriage_return() {
    let log = "[ZSBC DUMPER START]\r\n<k> = v\r\n[ZSBC DUMPER END]\r";
    let before = "noise\r";
    let after = "<late> = y\r";
    let a = parse_ct_log(log).unwrap().to_vec();
    assert_eq!(a, vec![pair("<k>", "v")]);
    let b = parse_ct_log(&format!("{before}\n{log}\n{after}")).unwrap().to_vec();
    assert_eq!(a, b);
}

#[test]
fn merge_of_joined_lists_after_carriage_return() {
    let first = "<a> = 1\r\n<b> = 2\r";
    let second = "<b> = 3\r\n<c> = 4";
    let mut m1 = StringMap::new();
    let mut m2 = StringMap::new();
    merge_additional(&mut m1, first);
    merge_additional(&mut m1, second);
    merge_additional(&mut m2, &format!("{first}\n{second}"));
    assert_eq!(m1.to_vec(), m2.to_vec());
    assert_eq!(m1.to_vec(), vec![pair("<a>", "1"), pair("<b>", "2"), pair("<c>", "4")]);
}
