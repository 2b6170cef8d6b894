use arabizi::single::TransliterationEngine;

fn engine() -> TransliterationEngine {
    TransliterationEngine::new()
}

#[test]
fn empty_input() {
    let e = engine();
    assert!(e.transliterate("").is_empty());
    assert!(e.transliterate("   ").is_empty());
}

#[test]
fn dictionary_word_habibi() {
    let e = engine();
    let results = e.transliterate("7abibi");
    assert!(results.contains(&"حبيبي".to_string()), "Expected حبيبي in {:?}", results);
}

#[test]
fn dictionary_word_inshallah() {
    let e = engine();
    let results = e.transliterate("inshallah");
    assert!(results.contains(&"إن شاء الله".to_string()), "Expected إن شاء الله in {:?}", results);
}

#[test]
fn dictionary_word_shukran() {
    let e = engine();
    let results = e.transliterate("shukran");
    assert!(results.contains(&"شكرا".to_string()), "Expected شكرا in {:?}", results);
}

#[test]
fn rule_based_saba7() {
    let e = engine();
    let results = e.transliterate("saba7");
    assert!(!results.is_empty());
    let first = &results[0];
    assert!(first.contains("ب"), "Expected ب in '{}'", first);
    assert!(first.contains("ح"), "Expected ح in '{}'", first);
}

#[test]
fn rule_based_no_ambiguity_explosion() {
    let e = engine();
    let results = e.transliterate("saba7");
    assert_eq!(results.len(), 1, "Expected 1 result, got {:?}", results);
}

#[test]
fn multi_word_input() {
    let e = engine();
    let results = e.transliterate("yalla habibi");
    assert!(!results.is_empty());
    assert!(results[0].contains("يلا"), "Expected يلا in '{}'", results[0]);
    assert!(results[0].contains("حبيبي"), "Expected حبيبي in '{}'", results[0]);
}

#[test]
fn case_insensitive() {
    let e = engine();
    let lower = e.transliterate("shukran");
    let upper = e.transliterate("SHUKRAN");
    let mixed = e.transliterate("Shukran");
    assert_eq!(lower, upper);
    assert_eq!(lower, mixed);
}

#[test]
fn preserves_unknown_chars() {
    let e = engine();
    let results = e.transliterate("!");
    assert_eq!(results, vec!["!"]);
}

#[test]
fn number_mappings_work() {
    let e = engine();
    let results = e.transliterate_word("7");
    assert!(results.iter().any(|r| r.contains("ح")), "Expected ح for '7', got {:?}", results);
}

#[test]
fn digraph_sh() {
    let e = engine();
    let results = e.transliterate_word("sh");
    assert!(results.iter().any(|r| r.contains("ش")), "Expected ش for 'sh', got {:?}", results);
}

#[test]
fn word_initial_vowel() {
    let e = engine();
    let results = e.transliterate("ana");
    let first = &results[0];
    assert!(first.starts_with("ا") || first.starts_with("أ"), "Expected word-initial alef in '{}'", first);
}

#[test]
fn single_lowered_input_functions() {
    let e = engine();
    let s: Vec<char> = "yalla habibi".chars().collect();
    assert_eq!(e.transliterate_lowered(&s), e.transliterate("Yalla HABIBI"));
    assert!(e.transliterate_lowered(&[]).is_empty());
    let w: Vec<char> = "saba7".chars().collect();
    let c: Vec<String> = e.word_candidates_lowered(&w).iter().map(|x| x.iter().collect()).collect();
    assert_eq!(c, e.transliterate_word("SABA7"));
    assert_eq!(c.len(), 1);
}
