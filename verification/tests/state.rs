use resume::link::{decode_query, decode_secret, to_link, SecretError};
use resume::minigame::Minigame;
use resume::localization::Span;
use resume::state::{Language, State, Theme};

#[test]
fn light_and_dark_colors() {
    let light = Theme::Light.colors();
    assert_eq!(light.background, None);
    assert_eq!(light.text, 0x00_00_00_ff);
    assert_eq!(light.link, 0x11_55_cc_ff);
    assert_eq!(light.disabled_link, 0x77_77_77_ff);
    let dark = Theme::Dark.colors();
    assert_eq!(dark.background, Some(0x1a_20_31_ff));
    assert_eq!(dark.text, 0xff_ff_ff_ff);
    assert_eq!(dark.link, 0x4c_b5_ff_ff);
}

#[test]
fn state_colors_follow_theme() {
    let mut state = State::landing(None);
    assert_eq!(state.text_color(), 0x00_00_00_ff);
    assert_eq!(state.background_color(), None);
    state.theme = Theme::Dark;
    assert_eq!(state.text_color(), 0xff_ff_ff_ff);
    assert_eq!(state.link_color(), 0x4c_b5_ff_ff);
    assert_eq!(state.disabled_link_color(), 0x77_77_77_ff);
    assert_eq!(state.background_color(), Some(0x1a_20_31_ff));
    assert_eq!(state.span_color(true), 0x4c_b5_ff_ff);
    assert_eq!(state.span_color(false), 0xff_ff_ff_ff);
}

#[test]
fn landing_state() {
    let state = State::landing(Some(*b"abcdefgh"));
    assert!(!state.open);
    assert!(state.theme == Theme::Light);
    assert!(state.language == Language::English);
    assert!(state.minigame.is_none());
    assert!(!state.reference);
    assert!(state.knows_secret(b"abcdefgh"));
    assert!(!state.knows_secret(b"abcdefgx"));
    assert!(!State::landing(None).knows_secret(b"abcdefgh"));
}

#[test]
fn link_carries_state_bytes() {
    let link = to_link("http://localhost:8080", &[0xfb, 0xff, 0x01]);
    assert_eq!(link, "http://localhost:8080?-_8B");
    let query = &link["http://localhost:8080?".len()..];
    assert_eq!(decode_query(query), Some(vec![0xfb, 0xff, 0x01]));
}

#[test]
fn empty_state_gives_empty_query() {
    assert_eq!(to_link("https://x", &[]), "https://x?");
    assert_eq!(decode_query(""), Some(vec![]));
}

#[test]
fn invalid_query_is_refused() {
    assert_eq!(decode_query("a+b="), None);
    assert_eq!(decode_query("abc="), None);
    assert_eq!(decode_query("A"), None);
}

#[test]
fn span_constructors() {
    let s = Span::regular("a");
    assert!(s.text == "a" && !s.bold && s.link.is_none());
    let s = Span::bold("b");
    assert!(s.text == "b" && s.bold && s.link.is_none());
    let s = Span::link_bold("c", "https://c");
    assert!(s.text == "c" && s.bold && s.link == Some("https://c"));
}

#[test]
fn secret_from_standard_base64() {
    assert_eq!(decode_secret("YWJjZGVmZ2g=").ok(), Some(*b"abcdefgh"));
    assert!(matches!(decode_secret("abcdefghijk="), Ok(_)));
    assert!(matches!(decode_secret("YWJj"), Err(SecretError::WrongLength)));
    assert!(matches!(decode_secret("YWJjZGVmZ2g"), Err(SecretError::NotBase64)));
    assert!(matches!(decode_secret("-_8B"), Err(SecretError::NotBase64)));
}

#[test]
fn settings_switches() {
    let state = State::landing(None);
    assert!(state.theme_switch(Theme::Light).is_none());
    let dark = state.theme_switch(Theme::Dark).unwrap();
    assert!(dark.theme == Theme::Dark && !dark.open && dark.minigame.is_none());
    assert!(state.language_switch(Language::English).is_none());
    assert!(state.language_switch(Language::German).unwrap().language == Language::German);
    assert!(state.minigame_off_switch().is_none());
    let on = state.minigame_on_switch(Minigame { state: 0x12 }).unwrap();
    assert_eq!(on.minigame.unwrap().state, 0x12);
    assert!(on.minigame_on_switch(Minigame { state: 0 }).is_none());
    assert!(on.minigame_off_switch().unwrap().minigame.is_none());
    assert!(state.settings_toggled().open);
    assert!(!state.settings_toggled().settings_toggled().open);
    assert_eq!(state.with_minigame(Some(Minigame { state: 7 })).minigame.unwrap().state, 7);
}
