use arabizi::dictionary::Dictionary;
use arabizi::engine::TransliterationEngine;
use arabizi::frequency::FrequencyList;
use arabizi::user_prefs::UserPreferences;

fn engine() -> TransliterationEngine {
    TransliterationEngine::new()
}

#[test]
fn engine_empty_input() {
    let e = engine();
    assert!(e.transliterate("").is_empty());
    assert!(e.transliterate("   ").is_empty());
}

#[test]
fn engine_dictionary_word_habibi() {
    let e = engine();
    let results = e.transliterate("7abibi");
    assert!(results.contains(&"حبيبي".to_string()), "Expected حبيبي in {:?}", results);
}

#[test]
fn engine_dictionary_word_inshallah() {
    let e = engine();
    let results = e.transliterate("inshallah");
    assert!(results.contains(&"إن شاء الله".to_string()), "Expected إن شاء الله in {:?}", results);
}

#[test]
fn engine_rule_based_saba7() {
    let e = engine();
    let results = e.transliterate("saba7");
    assert!(!results.is_empty());
    let first = &results[0];
    assert!(first.contains("ب"), "Expected ب in '{}'", first);
    assert!(first.contains("ح"), "Expected ح in '{}'", first);
}

#[test]
fn multiple_candidates_generated() {
    let e = engine();
    let results = e.transliterate_word("salam");
    assert!(results.len() > 1, "Expected multiple candidates for 'salam', got {:?}", results);
}

#[test]
fn ambiguous_consonant_variations() {
    let e = engine();
    let results = e.transliterate_word("sala");
    let has_sad = results.iter().any(|r| r.contains("ص"));
    assert!(has_sad, "Expected a ص variation for 'sala', got {:?}", results);
}

#[test]
fn engine_multi_word_input() {
    let e = engine();
    let results = e.transliterate("yalla habibi");
    assert!(!results.is_empty());
    assert!(results[0].contains("يلا"), "Expected يلا in '{}'", results[0]);
    assert!(results[0].contains("حبيبي"), "Expected حبيبي in '{}'", results[0]);
}

#[test]
fn engine_case_insensitive() {
    let e = engine();
    let lower = e.transliterate("shukran");
    let upper = e.transliterate("SHUKRAN");
    let mixed = e.transliterate("Shukran");
    assert_eq!(lower, upper);
    assert_eq!(lower, mixed);
}

#[test]
fn engine_preserves_unknown_chars() {
    let e = engine();
    let results = e.transliterate("!");
    assert_eq!(results, vec!["!"]);
}

#[test]
fn engine_number_mappings_work() {
    let e = engine();
    let results = e.transliterate_word("7");
    assert!(results.iter().any(|r| r.contains("ح")), "Expected ح for '7', got {:?}", results);
}

#[test]
fn engine_digraph_sh() {
    let e = engine();
    let results = e.transliterate_word("sh");
    assert!(results.iter().any(|r| r.contains("ش")), "Expected ش for 'sh', got {:?}", results);
}

#[test]
fn engine_word_initial_vowel() {
    let e = engine();
    let results = e.transliterate("ana");
    let first = &results[0];
    assert!(first.starts_with("ا") || first.starts_with("أ"), "Expected word-initial alef in '{}'", first);
}

#[test]
fn max_candidates_capped() {
    let e = engine();
    let results = e.transliterate_word("standard");
    assert!(results.len() <= 8, "Expected at most 8 candidates, got {}", results.len());
}

#[test]
fn taa_marbuta_at_word_end() {
    let e = engine();
    let results = e.transliterate_word("gameela");
    assert!(results.iter().any(|r| r.contains("ة")),
        "Expected ة (taa marbuta) in candidates for 'gameela', got {:?}", results);
}

#[test]
fn taa_marbuta_not_after_vowel() {
    let e = engine();
    let results = e.transliterate_word("aa");
    assert!(!results.iter().any(|r| r.contains("ة")), "Should not have ة for 'aa', got {:?}", results);
}

#[test]
fn hamza_mid_word_on_alef() {
    let e = engine();
    let results = e.transliterate_word("bd2t");
    assert!(results.iter().any(|r| r.contains("أ")), "Expected أ (hamza on alef) for 'bd2t', got {:?}", results);
}

#[test]
fn hamza_with_damma_on_waw() {
    let e = engine();
    let results = e.transliterate_word("su2al");
    assert!(results.iter().any(|r| r.contains("ؤ")), "Expected ؤ (hamza on waw) for 'su2al', got {:?}", results);
}

#[test]
fn hamza_with_kasra_on_ya() {
    let e = engine();
    let results = e.transliterate_word("ra2is");
    assert!(results.iter().any(|r| r.contains("ئ")), "Expected ئ (hamza on ya) for 'ra2is', got {:?}", results);
}

#[test]
fn hamza_word_final_standalone() {
    let e = engine();
    let results = e.transliterate_word("masa2");
    assert!(results.iter().any(|r| r.contains("ء")), "Expected ء (standalone hamza) for 'masa2', got {:?}", results);
}

#[test]
fn hamza_word_initial() {
    let e = engine();
    let results = e.transliterate_word("2amal");
    assert!(results.iter().any(|r| r.starts_with("أ")),
        "Expected أ (hamza on alef) at start for '2amal', got {:?}", results);
}

#[test]
fn engine_user_choice_goes_first() {
    let e = engine();
    for word in ["salam", "gameela", "standard", "7abibi"] {
        let cands = e.transliterate_word(word);
        for c in cands.iter() {
            let mut p = UserPreferences::new();
            p.record(word, c);
            let ranked = e.transliterate_word_ranked(word, Some(&p));
            assert_eq!(&ranked[0], c, "word {} choice {} gave {:?}", word, c, ranked);
        }
    }
}

#[test]
fn engine_preference_beats_dictionary() {
    let e = engine();
    let cands = e.transliterate_word("7abibi");
    assert_eq!(cands[0], "حبيبي");
    let other = cands.iter().find(|c| c.as_str() != "حبيبي").unwrap().clone();
    let mut p = UserPreferences::new();
    p.record("7abibi", &other);
    let ranked = e.transliterate_word_ranked("7abibi", Some(&p));
    assert_eq!(ranked[0], other);
    assert_eq!(ranked[1], "حبيبي");
}

#[test]
fn engine_candidates_distinct_and_capped() {
    let e = engine();
    for word in ["salam", "sala", "standard", "lazeez", "sahlan", "7abibi", "3arabi", "x"] {
        let c = e.transliterate_word(word);
        assert!(!c.is_empty());
        assert!(c.len() <= 8);
        for i in 0..c.len() {
            for j in i + 1..c.len() {
                assert_ne!(c[i], c[j], "duplicate in {:?}", c);
            }
        }
    }
}

#[test]
fn engine_word_case_insensitive() {
    let e = engine();
    assert_eq!(e.transliterate_word("LaZeeZ"), e.transliterate_word("lazeez"));
}

#[test]
fn engine_frequency_ranks_real_words_first() {
    let plain = engine();
    let cands = plain.transliterate_word("sala");
    let last = cands.last().unwrap().clone();
    let e = TransliterationEngine::with_tables(Dictionary::new(), Dictionary::new(), FrequencyList::load(&format!("{} 10\n", last)));
    let ranked = e.transliterate_word("sala");
    assert_eq!(ranked[0], last);
}

#[test]
fn engine_emojis_of_first_candidate_with_some() {
    let mut emojis = Dictionary::new();
    emojis.insert("قلب".chars().collect(), vec!["❤️".chars().collect()]);
    emojis.insert("حب".chars().collect(), vec!["😍".chars().collect(), "💕".chars().collect()]);
    let e = TransliterationEngine::with_tables(emojis, Dictionary::new(), FrequencyList::default());
    let found = e.lookup_emojis(&["كلام".to_string(), "حب".to_string(), "قلب".to_string()]);
    assert_eq!(found, vec!["😍".to_string(), "💕".to_string()]);
    assert!(e.lookup_emojis(&["كلام".to_string()]).is_empty());
    assert!(e.lookup_emojis(&[]).is_empty());
}

#[test]
fn engine_dictionary_word_shukran() {
    let e = engine();
    let results = e.transliterate("shukran");
    assert!(results.contains(&"شكرًا".to_string()), "Expected شكرًا in {:?}", results);
}

#[test]
fn engine_lowered_input_functions() {
    let e = engine();
    let s: Vec<char> = "yalla habibi".chars().collect();
    assert_eq!(e.transliterate_lowered(&s), e.transliterate("  YALLA Habibi "));
    assert!(e.transliterate_lowered(&[]).is_empty());
    let w: Vec<char> = "sala".chars().collect();
    let lowered: Vec<String> = e.word_candidates_lowered(&w, None).iter().map(|c| c.iter().collect()).collect();
    assert_eq!(lowered, e.transliterate_word("SALA"));
    assert!(lowered.len() >= 1 && lowered.len() <= 8);
}

#[test]
fn engine_no_choices_same_as_none() {
    let e = engine();
    let p = UserPreferences::new();
    for word in ["salam", "lazeez", "7abibi"] {
        assert_eq!(e.transliterate_word_ranked(word, Some(&p)), e.transliterate_word_ranked(word, None));
    }
}

#[test]
fn engine_dictionary_word_ranks_first() {
    let e = engine();
    // With no choices and no frequency list, the dictionary form leads.
    assert_eq!(e.transliterate_word("7abibi")[0], "حبيبي");
    assert_eq!(e.transliterate_word("ahlan")[0], "أهلا");
}
