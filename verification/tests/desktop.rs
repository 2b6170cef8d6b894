use arabizi::desktop::{
    accent_hex, acrylic_tint, autostart_matches, backdrop_for, choices_of_word, extract_punctuation, launch_agent_plist,
    parse_os_version, parse_shortcut_str, parse_window_position, position_visible, remembers_front_app,
    str_to_code, to_arabic_punct, transliterate_input, window_position_from, window_position_json, Backdrop,
    KeyCode, Modifiers, MonitorRect, ShortcutSpec,
};
use arabizi::dictionary::Dictionary;
use arabizi::engine::TransliterationEngine;
use arabizi::frequency::FrequencyList;
use arabizi::user_prefs::UserPreferences;

fn chars(s: &str) -> Vec<char> {
    s.chars().collect()
}

fn split(s: &str) -> (String, String, String) {
    extract_punctuation(s)
}

#[test]
fn arabic_punctuation_marks() {
    assert_eq!(to_arabic_punct('?'), '؟');
    assert_eq!(to_arabic_punct(','), '،');
    assert_eq!(to_arabic_punct(';'), '؛');
    assert_eq!(to_arabic_punct('!'), '!');
    assert_eq!(to_arabic_punct('a'), 'a');
}

#[test]
fn punctuation_split_around_word() {
    assert_eq!(split("ya3ni?"), ("".to_string(), "ya3ni".to_string(), "؟".to_string()));
    assert_eq!(split(",salam;"), ("،".to_string(), "salam".to_string(), "؛".to_string()));
    assert_eq!(split("(ahlan)!"), ("(".to_string(), "ahlan".to_string(), ")!".to_string()));
    assert_eq!(split("7abibi"), ("".to_string(), "7abibi".to_string(), "".to_string()));
}

#[test]
fn punctuation_only_token_is_all_prefix() {
    assert_eq!(split("?"), ("؟".to_string(), "".to_string(), "".to_string()));
    assert_eq!(split("?!,"), ("؟!،".to_string(), "".to_string(), "".to_string()));
    assert_eq!(split(""), ("".to_string(), "".to_string(), "".to_string()));
}

#[test]
fn punctuation_inside_word_is_kept() {
    // The digit 3 and an apostrophe inside a word are part of its core.
    assert_eq!(split("3'arbi."), ("".to_string(), "3'arbi".to_string(), ".".to_string()));
}

#[test]
fn typed_text_empty() {
    let e = TransliterationEngine::new();
    let p = UserPreferences::new();
    for input in ["", "   ", "\t\n"] {
        let r = transliterate_input(&e, &p, input);
        assert_eq!(r.combined, "");
        assert!(r.words.is_empty());
    }
}

#[test]
fn typed_text_word_with_question_mark() {
    let e = TransliterationEngine::new();
    let p = UserPreferences::new();
    let r = transliterate_input(&e, &p, "  7abibi? ");
    assert_eq!(r.words.len(), 1);
    let w = &r.words[0];
    assert_eq!(w.input, "7abibi?");
    assert_eq!(w.selected, 0);
    assert!(!w.candidates.is_empty());
    let bare = e.transliterate_word_ranked("7abibi", Some(&p));
    assert_eq!(w.candidates.len(), bare.len());
    for (c, b) in w.candidates.iter().zip(bare.iter()) {
        assert_eq!(c, &format!("{}؟", b));
    }
    assert_eq!(r.combined, w.candidates[0]);
    assert!(w.candidates.contains(&"حبيبي؟".to_string()), "{:?}", w.candidates);
}

#[test]
fn typed_text_punctuation_alone() {
    let e = TransliterationEngine::new();
    let p = UserPreferences::new();
    let r = transliterate_input(&e, &p, "yalla ?");
    assert_eq!(r.words.len(), 2);
    assert_eq!(r.words[1].input, "?");
    assert_eq!(r.words[1].candidates, vec!["؟".to_string()]);
    assert!(r.words[1].emojis.is_empty());
    assert_eq!(r.combined, format!("{} ؟", r.words[0].candidates[0]));
}

#[test]
fn typed_text_is_lowercased_and_split() {
    let e = TransliterationEngine::new();
    let p = UserPreferences::new();
    let r = transliterate_input(&e, &p, "YALLA   Habibi");
    let inputs: Vec<&str> = r.words.iter().map(|w| w.input.as_str()).collect();
    assert_eq!(inputs, vec!["yalla", "habibi"]);
    assert!(r.combined.contains("يلا"), "{}", r.combined);
    assert!(r.combined.contains("حبيبي"), "{}", r.combined);
}

#[test]
fn typed_text_follows_user_choice() {
    let e = TransliterationEngine::new();
    let mut p = UserPreferences::new();
    let before = transliterate_input(&e, &p, "salam");
    let last = before.words[0].candidates.last().unwrap().clone();
    p.record("salam", &last);
    let after = transliterate_input(&e, &p, "salam");
    assert_eq!(after.words[0].candidates[0], last);
    assert_eq!(after.combined, last);
}

#[test]
fn key_names() {
    assert_eq!(str_to_code(&chars("a")), Some(KeyCode::KeyA));
    assert_eq!(str_to_code(&chars("z")), Some(KeyCode::KeyZ));
    assert_eq!(str_to_code(&chars("f")), Some(KeyCode::KeyF));
    assert_eq!(str_to_code(&chars("0")), Some(KeyCode::Digit0));
    assert_eq!(str_to_code(&chars("9")), Some(KeyCode::Digit9));
    assert_eq!(str_to_code(&chars("space")), Some(KeyCode::Space));
    assert_eq!(str_to_code(&chars("f1")), Some(KeyCode::F1));
    assert_eq!(str_to_code(&chars("f10")), Some(KeyCode::F10));
    assert_eq!(str_to_code(&chars("f12")), Some(KeyCode::F12));
    assert_eq!(str_to_code(&chars("f13")), None);
    assert_eq!(str_to_code(&chars("f0")), None);
    assert_eq!(str_to_code(&chars("A")), None);
    assert_eq!(str_to_code(&chars("")), None);
    assert_eq!(str_to_code(&chars("enter")), None);
}

fn mods(control: bool, shift: bool, alt: bool, super_key: bool) -> Option<Modifiers> {
    Some(Modifiers { control, shift, alt, super_key })
}

#[test]
fn shortcut_strings() {
    assert_eq!(
        parse_shortcut_str("Ctrl+Shift+A"),
        Ok(ShortcutSpec { modifiers: mods(true, true, false, false), code: KeyCode::KeyA })
    );
    assert_eq!(
        parse_shortcut_str("cmd+shift+space"),
        Ok(ShortcutSpec { modifiers: mods(false, true, false, true), code: KeyCode::Space })
    );
    assert_eq!(
        parse_shortcut_str(" Alt + F1 "),
        Ok(ShortcutSpec { modifiers: mods(false, false, true, false), code: KeyCode::F1 })
    );
    assert_eq!(
        parse_shortcut_str("control+win+meta+super+7"),
        Ok(ShortcutSpec { modifiers: mods(true, false, false, true), code: KeyCode::Digit7 })
    );
    assert_eq!(parse_shortcut_str("b"), Ok(ShortcutSpec { modifiers: None, code: KeyCode::KeyB }));
    // The last key named wins.
    assert_eq!(parse_shortcut_str("a+b"), Ok(ShortcutSpec { modifiers: None, code: KeyCode::KeyB }));
}

#[test]
fn shortcut_errors() {
    assert_eq!(parse_shortcut_str("Ctrl+Shift"), Err("No key code specified".to_string()));
    assert_eq!(parse_shortcut_str("ctrl+Enter"), Err("Unknown key: enter".to_string()));
    assert_eq!(parse_shortcut_str("ctrl+"), Err("Unknown key: ".to_string()));
    assert_eq!(parse_shortcut_str(""), Err("Unknown key: ".to_string()));
    // The first bad part is reported, even before a later good key.
    assert_eq!(parse_shortcut_str("foo+bar+a"), Err("Unknown key: foo".to_string()));
}

#[test]
fn accent_colour_from_abgr() {
    assert_eq!(accent_hex(0x00D7_7800), "#0078d7");
    assert_eq!(accent_hex(0xFF00_00FF), "#ff0000");
    assert_eq!(accent_hex(0), "#000000");
    assert_eq!(accent_hex(0xFFFF_FFFF), "#ffffff");
    assert_eq!(accent_hex(0x0012_34AB), "#ab3412");
}

#[test]
fn window_position_read() {
    assert_eq!(parse_window_position("{\"x\":10,\"y\":-20}"), Some((10, -20)));
    assert_eq!(parse_window_position(" { \"y\" : 7 , \"x\" : 3 } "), Some((3, 7)));
    assert_eq!(parse_window_position("{\"x\":10}"), None);
    assert_eq!(parse_window_position("{\"x\":1.5,\"y\":2}"), None);
    assert_eq!(parse_window_position("not json"), None);
    assert_eq!(parse_window_position(""), None);
    // Values beyond 32 bits are cut as `as i32` does.
    assert_eq!(parse_window_position("{\"x\":4294967297,\"y\":0}"), Some((1, 0)));
}

#[test]
fn window_position_members() {
    assert_eq!(window_position_from(Some(5), Some(-6)), Some((5, -6)));
    assert_eq!(window_position_from(None, Some(1)), None);
    assert_eq!(window_position_from(Some(1), None), None);
    assert_eq!(window_position_from(Some(-4294967296 - 3), Some(0)), Some((-3, 0)));
}

#[test]
fn window_position_written_and_read_back() {
    assert_eq!(window_position_json(-5, 300), "{\"x\":-5,\"y\":300}");
    assert_eq!(window_position_json(0, 0), "{\"x\":0,\"y\":0}");
    for (x, y) in [(0, 0), (-5, 300), (i32::MIN, i32::MAX), (1920, -1080)] {
        let text = window_position_json(x, y);
        assert_eq!(text, format!("{{\"x\":{},\"y\":{}}}", x, y));
        assert_eq!(parse_window_position(&text), Some((x, y)));
    }
}

#[test]
fn position_on_monitors() {
    let monitors = [
        MonitorRect { x: 0, y: 0, width: 1920, height: 1080 },
        MonitorRect { x: 1920, y: -200, width: 1280, height: 1024 },
    ];
    assert!(position_visible(&monitors, 0, 0));
    assert!(position_visible(&monitors, 1919, 1079));
    assert!(!position_visible(&monitors, 1920 + 1280, 0));
    assert!(position_visible(&monitors, 2000, -100));
    assert!(!position_visible(&monitors, 100, 1080));
    assert!(!position_visible(&monitors, -1, 5));
    assert!(!position_visible(&[], 0, 0));
}

#[test]
fn launch_agent_text() {
    let plist = launch_agent_plist("/Applications/Franconvert.app/Contents/MacOS/franconvert");
    let expected = r#"<?xml version="1.0" encoding="UTF-8"?>
<!DOCTYPE plist PUBLIC "-//Apple//DTD PLIST 1.0//EN" "http://www.apple.com/DTDs/PropertyList-1.0.dtd">
<plist version="1.0">
<dict>
    <key>Label</key>
    <string>com.franconvert.app</string>
    <key>ProgramArguments</key>
    <array>
        <string>/Applications/Franconvert.app/Contents/MacOS/franconvert</string>
    </array>
    <key>RunAtLoad</key>
    <true/>
    <key>KeepAlive</key>
    <false/>
</dict>
</plist>"#;
    assert_eq!(plist, expected);
}

#[test]
fn autostart_paths_compared_lowercased() {
    assert!(autostart_matches("C:\\Program Files\\Franconvert\\franconvert.exe", "c:\\program files\\franconvert\\FRANCONVERT.EXE"));
    assert!(!autostart_matches("C:\\old\\franconvert.exe", "C:\\new\\franconvert.exe"));
}

#[test]
fn os_version_numbers() {
    assert_eq!(parse_os_version("15.3.1\n"), (15, 3));
    assert_eq!(parse_os_version("26.0"), (26, 0));
    assert_eq!(parse_os_version("26"), (26, 0));
    assert_eq!(parse_os_version("14.x.2"), (14, 0));
    assert_eq!(parse_os_version(""), (0, 0));
    assert_eq!(parse_os_version("abc"), (0, 0));
    assert_eq!(parse_os_version("+13.+4"), (13, 4));
}

#[test]
fn backdrop_by_version() {
    assert_eq!(backdrop_for(26), Backdrop::FullScreenUi);
    assert_eq!(backdrop_for(27), Backdrop::FullScreenUi);
    assert_eq!(backdrop_for(25), Backdrop::HudWindow);
    assert_eq!(backdrop_for(0), Backdrop::HudWindow);
    let (major, _) = parse_os_version("15.6");
    assert_eq!(backdrop_for(major), Backdrop::HudWindow);
}

#[test]
fn acrylic_tints() {
    assert_eq!(acrylic_tint(true), (20, 20, 20, 238));
    assert_eq!(acrylic_tint(false), (245, 245, 245, 238));
}

#[test]
fn front_app_remembered_only_when_other() {
    assert!(remembers_front_app(123, 456));
    assert!(!remembers_front_app(456, 456));
    assert!(!remembers_front_app(0, 456));
    assert!(!remembers_front_app(-1, 456));
}

#[test]
fn choices_of_one_typed_word() {
    let e = TransliterationEngine::new();
    let p = UserPreferences::new();
    let (cands, emojis) = choices_of_word(&e, &p, &chars(",7abibi?"));
    assert_eq!(cands[0], "،حبيبي؟");
    assert!(emojis.is_empty());
    let (cands, _) = choices_of_word(&e, &p, &chars("?!"));
    assert_eq!(cands, vec!["؟!".to_string()]);
    let r = transliterate_input(&e, &p, "  ,7ABIBI?  ");
    assert_eq!(r.words[0].candidates, choices_of_word(&e, &p, &chars(",7abibi?")).0);
}

#[test]
fn emoticons_become_emojis() {
    let mut emoticons = Dictionary::new();
    emoticons.insert(chars(":)"), vec![chars("🙂"), chars("😊")]);
    emoticons.insert(chars("<3"), vec![chars("❤️")]);
    let e = TransliterationEngine::with_tables(Dictionary::new(), emoticons, FrequencyList::default());
    let p = UserPreferences::new();
    assert_eq!(e.lookup_emoticon(":)"), Some(vec!["🙂".to_string(), "😊".to_string()]));
    assert_eq!(e.lookup_emoticon(":("), None);
    let r = transliterate_input(&e, &p, "ahlan :) <3 ?");
    assert_eq!(r.words.len(), 4);
    assert_eq!(r.words[1].input, ":)");
    assert_eq!(r.words[1].candidates, vec!["🙂".to_string(), "😊".to_string()]);
    assert!(r.words[1].emojis.is_empty());
    assert_eq!(r.words[2].candidates, vec!["❤️".to_string()]);
    // Not an emoticon: punctuation alone stays its own candidate.
    assert_eq!(r.words[3].candidates, vec!["؟".to_string()]);
    assert_eq!(r.combined, format!("{} 🙂 ❤️ ؟", r.words[0].candidates[0]));
    // The engine from `new` has no emoticons.
    let plain = TransliterationEngine::new();
    assert_eq!(transliterate_input(&plain, &p, ":)").words[0].candidates, vec![":)".to_string()]);
}
