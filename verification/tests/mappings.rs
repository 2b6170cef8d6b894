use arabizi::mappings::{consonant_mappings, is_consonant_char, is_number_char, is_vowel_char, long_vowel_mappings};

#[test]
fn no_duplicate_consonant_patterns() {
    let mut seen = std::collections::HashSet::new();
    for (pattern, _) in consonant_mappings() {
        let p: String = pattern.iter().collect();
        assert!(seen.insert(p.clone()), "Duplicate consonant pattern: {}", p);
    }
}

#[test]
fn no_duplicate_long_vowel_patterns() {
    let mut seen = std::collections::HashSet::new();
    for (pattern, _) in long_vowel_mappings() {
        let p: String = pattern.iter().collect();
        assert!(seen.insert(p.clone()), "Duplicate long vowel pattern: {}", p);
    }
}

#[test]
fn mappings_no_duplicate_consonant_patterns() {
    let mut seen = std::collections::HashSet::new();
    for (pattern, _) in consonant_mappings() {
        let p: String = pattern.iter().collect();
        assert!(seen.insert(p.clone()), "Duplicate consonant pattern: {}", p);
    }
}

#[test]
fn mappings_no_duplicate_long_vowel_patterns() {
    let mut seen = std::collections::HashSet::new();
    for (pattern, _) in long_vowel_mappings() {
        let p: String = pattern.iter().collect();
        assert!(seen.insert(p.clone()), "Duplicate long vowel pattern: {}", p);
    }
}

#[test]
fn character_classes() {
    for c in "bctjdrzsfqklmnhwygxvp".chars() {
        assert!(is_consonant_char(c), "{}", c);
        assert!(!is_vowel_char(c));
    }
    for c in "aeiou".chars() {
        assert!(is_vowel_char(c));
        assert!(!is_consonant_char(c));
    }
    for c in "2356789".chars() {
        assert!(is_number_char(c));
    }
    for c in "014A ".chars() {
        assert!(!is_number_char(c) && !is_consonant_char(c) && !is_vowel_char(c), "{:?}", c);
    }
}

#[test]
fn patterns_and_outputs_nonempty() {
    for (pattern, arabic) in consonant_mappings() {
        assert!(!pattern.is_empty());
        assert!(!arabic.is_empty());
    }
    for (pattern, _) in long_vowel_mappings() {
        assert!(pattern.iter().all(|&c| is_vowel_char(c)));
    }
}
