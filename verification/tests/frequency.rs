use arabizi::frequency::FrequencyList;

#[test]
fn frequency_ranks_are_line_numbers() {
    let fl = FrequencyList::load("في 5000\nمن 4000\nأنا 3000\n");
    assert_eq!(fl.rank("في"), Some(0));
    assert_eq!(fl.rank("من"), Some(1));
    assert_eq!(fl.rank("أنا"), Some(2));
    assert_eq!(fl.rank("هو"), None);
    assert!(fl.rank("في").unwrap() < fl.rank("أنا").unwrap());
}

#[test]
fn frequency_lines_without_space_are_skipped() {
    let fl = FrequencyList::load("كلمة\nفي 10\r\n\nمن 3");
    assert_eq!(fl.rank("كلمة"), None);
    assert_eq!(fl.rank("في"), Some(1));
    assert_eq!(fl.rank("من"), Some(3));
}

#[test]
fn frequency_word_before_last_space() {
    // The word is what comes before the line's last space; a later line
    // for the same word wins.
    let fl = FrequencyList::load("إن شاء 7\nفي 2\nفي 1");
    assert_eq!(fl.rank("إن شاء"), Some(0));
    assert_eq!(fl.rank("في"), Some(2));
}

#[test]
fn frequency_empty_list() {
    let fl = FrequencyList::default();
    assert_eq!(fl.rank("في"), None);
    assert_eq!(FrequencyList::load("").rank(""), None);
}
