use arabizi::dictionary::build_dictionary;

#[test]
fn dictionary_loads() {
    let dict = build_dictionary();
    assert!(dict.len() > 100, "Dictionary should have 100+ entries");
}

#[test]
fn common_words_present() {
    let dict = build_dictionary();
    assert!(dict.contains_key("habibi"));
    assert!(dict.contains_key("inshallah"));
    assert!(dict.contains_key("shukran"));
    assert!(dict.contains_key("yalla"));
}

#[test]
fn case_insensitive_keys() {
    let dict = build_dictionary();
    for key in dict.keys() {
        assert_eq!(key, key.to_lowercase(), "Key '{}' should be lowercase", key);
    }
}

#[test]
fn dictionary_keys_as_written() {
    let dict = build_dictionary();
    let key: Vec<char> = "min".chars().collect();
    let words: Vec<String> = dict.get(&key).unwrap().iter().map(|w| w.iter().collect()).collect();
    assert_eq!(words, vec!["من".to_string(), "مين".to_string()]);
    let upper: Vec<char> = "MIN".chars().collect();
    assert!(dict.get(&upper).is_none());
    assert_eq!(dict.len(), 156);
}
