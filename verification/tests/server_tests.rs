use zenscript_toolkit::server::{Settings, State};

fn state_with(items: &[(&str, &str)], settings: Settings) -> State {
    let mut log = String::from("[ZSBC DUMPER START]\n");
    for (k, v) in items {
        log.push_str(&format!("{k} = {v}\n"));
    }
    log.push_str("[ZSBC DUMPER END]\n");
    let mut s = State::new(settings);
    s.apply_reload(&log, None, 42);
    s
}

fn labels(s: &State, uri: &str, line: u32, ch: u32) -> Vec<String> {
    s.completions(uri, line, ch).into_iter().map(|c| c.label).collect()
}

#[test]
fn settings_default() {
    let s = Settings::default();
    assert!(s.ct_log_path.is_none());
    assert!(s.additional_path.is_none());
    assert!(!s.always_reload);
    assert!(s.only_complete_brackets);
    assert!(!s.completion_suggest_all_items);
    assert!(!s.completion_suggest_with_start);
}

#[test]
fn reload_replaces_and_merges() {
    let mut s = State::new(Settings::default());
    assert_eq!(s.last_load_ms, 0);
    s.apply_reload("[ZSBC DUMPER START]\n<a> = A\n[ZSBC DUMPER END]", Some("<b> = B\n<a> = Z"), 7);
    assert_eq!(s.items.to_vec(), vec![("<a>".into(), "A".into()), ("<b>".into(), "B".into())]);
    assert_eq!(s.last_load_ms, 7);
    s.apply_reload("nothing", None, 8);
    assert!(s.items.is_empty());
}

#[test]
fn documents_follow_notifications() {
    let mut s = State::new(Settings::default());
    s.did_open("file:///a.zs".into(), "one".into());
    assert_eq!(s.documents.get("file:///a.zs").unwrap(), "one");
    s.did_change("file:///a.zs".into(), vec!["two".into(), "three".into()]);
    assert_eq!(s.documents.get("file:///a.zs").unwrap(), "three");
    s.did_change("file:///a.zs".into(), vec![]);
    assert_eq!(s.documents.get("file:///a.zs").unwrap(), "three");
    s.did_close("file:///a.zs");
    assert!(s.documents.get("file:///a.zs").is_none());
}

#[test]
fn completion_in_bracket_mode() {
    let mut s = state_with(
        &[("<item:minecraft:diamond>", "Diamond"), ("<item:minecraft:dirt>", "Dirt"), ("<fluid:water>", "Water")],
        Settings::default(),
    );
    s.did_open("u".into(), "first line\nrecipes.remove(<item:minecraft:di".into());
    let items = s.completions("u", 1, 33);
    let got: Vec<(String, String, u32, usize, usize)> =
        items.into_iter().map(|c| (c.label, c.detail, c.line, c.start, c.end)).collect();
    assert_eq!(
        got,
        vec![
            ("<item:minecraft:diamond>".into(), "Diamond".into(), 1, 15, 33),
            ("<item:minecraft:dirt>".into(), "Dirt".into(), 1, 15, 33),
        ]
    );
    assert!(labels(&s, "u", 0, 10).is_empty());
    assert!(labels(&s, "u", 5, 0).is_empty());
    assert!(labels(&s, "other", 0, 0).is_empty());
}

#[test]
fn completion_substring_and_prefix_modes() {
    let mut settings = Settings::default();
    settings.only_complete_brackets = false;
    let mut s = state_with(&[("<a:water>", "W"), ("<water:b>", "B"), ("<c>", "C")], settings.clone());
    s.did_open("u".into(), "water".into());
    assert_eq!(labels(&s, "u", 0, 5), vec!["<a:water>", "<water:b>"]);
    settings.completion_suggest_with_start = true;
    let mut s2 = state_with(&[("<a:water>", "W"), ("<water:b>", "B")], settings.clone());
    s2.did_open("u".into(), "<water".into());
    assert_eq!(labels(&s2, "u", 0, 6), vec!["<water:b>"]);
    settings.completion_suggest_all_items = true;
    let mut s3 = state_with(&[("<a:water>", "W"), ("<water:b>", "B"), ("<c>", "C")], settings);
    s3.did_open("u".into(), "zzz".into());
    assert_eq!(labels(&s3, "u", 0, 1), vec!["<a:water>", "<c>", "<water:b>"]);
}

#[test]
fn completion_is_limited_to_200() {
    let mut log = String::from("[ZSBC DUMPER START]\n");
    for i in 0..250 {
        log.push_str(&format!("<item:x{i:03}> = n{i}\n"));
    }
    log.push_str("[ZSBC DUMPER END]\n");
    let mut s = State::new(Settings::default());
    s.apply_reload(&log, None, 1);
    s.did_open("u".into(), "<item:x".into());
    let got = labels(&s, "u", 0, 7);
    assert_eq!(got.len(), 200);
    assert_eq!(got[0], "<item:x000>");
    assert_eq!(got[199], "<item:x199>");
}

#[test]
fn hover_answers_known_brackets() {
    let mut s = state_with(&[("<item:minecraft:diamond>", "Diamond")], Settings::default());
    s.did_open("u".into(), "a\nrecipes.remove(<item:minecraft:diamond:0>);".into());
    let h = s.hover("u", 1, 20).expect("hover");
    assert_eq!(h.key, "<item:minecraft:diamond>");
    assert_eq!(h.value, "Diamond");
    assert_eq!(h.markdown, "```\n<item:minecraft:diamond>\n```\n\nDiamond");
    assert_eq!((h.start, h.end), (15, 41));
    assert!(s.hover("u", 0, 0).is_none());
    assert!(s.hover("u", 9, 0).is_none());
    assert!(s.hover("nope", 1, 20).is_none());
}

#[test]
fn reload_flag() {
    let mut settings = Settings::default();
    assert!(!State::new(settings.clone()).reloads_on_request());
    settings.always_reload = true;
    assert!(State::new(settings).reloads_on_request());
}

#[test]
fn closed_document_answers_nothing() {
    let mut s = state_with(&[("<a:b>", "A")], Settings::default());
    s.did_open("u".into(), "<a:b>".into());
    assert_eq!(labels(&s, "u", 0, 3), vec!["<a:b>"]);
    assert!(s.hover("u", 0, 1).is_some());
    s.did_close("u");
    assert!(labels(&s, "u", 0, 3).is_empty());
    assert!(s.hover("u", 0, 1).is_none());
}

#[test]
fn bracket_mode_completes_only_brackets() {
    let mut s = state_with(&[("<item:minecraft:diamond>", "Diamond")], Settings::default());
    s.did_open("file:///a.zs".into(), "diamond\n<item\n<item:".into());
    assert!(labels(&s, "file:///a.zs", 0, 7).is_empty());
    assert!(labels(&s, "file:///a.zs", 1, 5).is_empty());
    assert_eq!(labels(&s, "file:///a.zs", 2, 6), vec!["<item:minecraft:diamond>"]);
    let mut loose = Settings::default();
    loose.only_complete_brackets = false;
    let mut s2 = state_with(&[("<item:minecraft:diamond>", "Diamond")], loose);
    s2.did_open("file:///a.zs".into(), "diamond".into());
    assert_eq!(labels(&s2, "file:///a.zs", 0, 7), vec!["<item:minecraft:diamond>"]);
}

#[test]
fn prefix_mode_matches_typed_bracket() {
    let mut settings = Settings::default();
    settings.completion_suggest_with_start = true;
    let mut s = state_with(
        &[("<item:minecraft:diamond>", "Diamond"), ("<item:minecraft:stone>", "Stone")],
        settings,
    );
    s.did_open("file:///a.zs".into(), "<item:minecraft:d".into());
    let got = s.completions("file:///a.zs", 0, 17);
    assert_eq!(got.len(), 1);
    assert_eq!(got[0].label, "<item:minecraft:diamond>");
    assert_eq!(got[0].detail, "Diamond");
}

#[test]
fn all_items_mode_is_not_capped() {
    let mut log = String::from("[ZSBC DUMPER START]\n");
    for i in 0..250 {
        log.push_str(&format!("<item:x{i:03}> = n{i}\n"));
    }
    log.push_str("[ZSBC DUMPER END]\n");
    let mut settings = Settings::default();
    settings.completion_suggest_all_items = true;
    let mut s = State::new(settings);
    s.apply_reload(&log, None, 1);
    s.did_open("u".into(), "<zz:".into());
    let got = labels(&s, "u", 0, 4);
    assert_eq!(got.len(), 250);
    let keys: Vec<String> = s.items.to_vec().into_iter().map(|(k, _)| k).collect();
    assert_eq!(got, keys);
}

#[test]
fn loose_prefix_mode_compares_the_word_as_typed() {
    let mut settings = Settings::default();
    settings.only_complete_brackets = false;
    settings.completion_suggest_with_start = true;
    let mut s = state_with(&[("<item:x>", "X"), ("item_y", "Y")], settings);
    s.did_open("u".into(), "item".into());
    assert_eq!(labels(&s, "u", 0, 4), vec!["item_y"]);
}
