use arabizi::user_prefs::UserPreferences;

#[test]
fn record_and_score() {
    let mut prefs = UserPreferences::new();
    prefs.record("ahlan", "أهلاً");
    prefs.record("ahlan", "أهلاً");
    prefs.record("ahlan", "اهلان");
    assert_eq!(prefs.score("ahlan", "أهلاً"), 2);
    assert_eq!(prefs.score("ahlan", "اهلان"), 1);
    assert_eq!(prefs.score("ahlan", "nonexistent"), 0);
}

#[test]
fn json_roundtrip() {
    let mut prefs = UserPreferences::new();
    prefs.record("shukran", "شكرًا");
    prefs.record("shukran", "شكرًا");
    prefs.record("ahlan", "أهلاً");

    let json = prefs.to_json();
    let loaded = UserPreferences::from_json(&json);
    assert_eq!(loaded.score("shukran", "شكرًا"), 2);
    assert_eq!(loaded.score("ahlan", "أهلاً"), 1);
}

#[test]
fn empty_json() {
    let prefs = UserPreferences::from_json("");
    assert_eq!(prefs.score("anything", "anything"), 0);

    let prefs = UserPreferences::from_json("{}");
    assert_eq!(prefs.score("anything", "anything"), 0);
}

#[test]
fn record_keys_are_lowercased() {
    let mut prefs = UserPreferences::new();
    prefs.record("AHLAN", "أهلاً");
    assert_eq!(prefs.score("ahlan", "أهلاً"), 1);
    assert_eq!(prefs.score("Ahlan", "أهلاً"), 1);
    prefs.record("ahlan", "أهلاً");
    assert_eq!(prefs.score("AHLAN", "أهلاً"), 2);
}

#[test]
fn record_leaves_other_counts() {
    let mut prefs = UserPreferences::new();
    prefs.record("salam", "سلام");
    prefs.record("salam", "صلام");
    prefs.record("ahlan", "سلام");
    assert_eq!(prefs.score("salam", "سلام"), 1);
    assert_eq!(prefs.score("salam", "صلام"), 1);
    assert_eq!(prefs.score("ahlan", "سلام"), 1);
    assert_eq!(prefs.score("ahlan", "صلام"), 0);
    assert_eq!(prefs.score("other", "سلام"), 0);
}

#[test]
fn record_checked_stops_at_the_limit() {
    let mut prefs = UserPreferences::from_json("{\"a\":{\"b\":4294967294}}");
    assert_eq!(prefs.score("a", "b"), 4294967294);
    assert!(prefs.record_checked("a", "b"));
    assert_eq!(prefs.score("a", "b"), u32::MAX);
    assert!(!prefs.record_checked("a", "b"));
    assert_eq!(prefs.score("a", "b"), u32::MAX);
}

#[test]
fn json_text_written() {
    let mut prefs = UserPreferences::new();
    assert_eq!(prefs.to_json(), "{}");
    prefs.record("ahlan", "أهلاً");
    prefs.record("ahlan", "أهلاً");
    assert_eq!(prefs.to_json(), "{\"ahlan\":{\"أهلاً\":2}}");
}

#[test]
fn json_roundtrip_with_escapes() {
    let mut prefs = UserPreferences::new();
    prefs.record("a\"b\\c", "x\ty\nz\r");
    prefs.record("plain", "q");
    let json = prefs.to_json();
    assert!(json.contains("\\\""));
    assert!(json.contains("\\t"));
    let loaded = UserPreferences::from_json(&json);
    assert_eq!(loaded.score("a\"b\\c", "x\ty\nz\r"), 1);
    assert_eq!(loaded.score("plain", "q"), 1);
    assert_eq!(loaded.to_json(), json);
}

#[test]
fn json_read_with_white_space() {
    let prefs = UserPreferences::from_json("  {\n \"ahlan\" : { \"أهلاً\" : 3 , \"اهلان\":1 } ,\"x\":{}}  ");
    assert_eq!(prefs.score("ahlan", "أهلاً"), 3);
    assert_eq!(prefs.score("ahlan", "اهلان"), 1);
    assert_eq!(prefs.score("x", "y"), 0);
}

#[test]
fn json_not_an_object_gives_nothing() {
    for text in ["[]", "{", "x", "{\"a\":3}", "{\"a\":{\"b\":-1}}", "{\"a\":{\"b\":99999999999}}", "{\"a\":{\"b\":1}"] {
        let prefs = UserPreferences::from_json(text);
        assert_eq!(prefs.to_json(), "{}", "for {}", text);
    }
}
