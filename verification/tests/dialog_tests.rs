use keynav::config::{Config, ConfigError, MOD_ALT, MOD_CONTROL, MOD_SHIFT, MOD_WIN};
use keynav::hotkey::{
    hotkey_control_word, hotkey_from_control_word, is_hotkey_message, make_hotkey_word,
    registration_modifiers, MOD_NOREPEAT, WM_HOTKEY,
};
use keynav::settings::{
    apply_form, decode_command, parse_usize, preset_alphabet, slider_font_size, DialogCommand,
    FormError,
};

#[test]
fn hotkey_word_packs_key_and_flags() {
    assert_eq!(make_hotkey_word(0x20, 0x03), 0x0320);
    let cfg = Config::default();
    // Ctrl (2) and Shift (1) as control flags, Space as the key.
    assert_eq!(hotkey_control_word(&cfg), 0x0320);
    assert_eq!(hotkey_from_control_word(0x0320, false), (MOD_CONTROL | MOD_SHIFT, 0x20));
    assert_eq!(hotkey_from_control_word(0x0441, true), (MOD_ALT | MOD_WIN, 0x41));
    let mut odd = Config::default();
    odd.hint_hotkey_vk = 0x141;
    assert_eq!(hotkey_control_word(&odd) & 0xFF, 0x41);
}

#[test]
fn hotkey_registration_details() {
    assert_eq!(registration_modifiers(MOD_CONTROL), MOD_CONTROL | MOD_NOREPEAT);
    assert!(is_hotkey_message(WM_HOTKEY, 1));
    assert!(!is_hotkey_message(WM_HOTKEY, 2));
    assert!(!is_hotkey_message(0x0100, 1));
}

#[test]
fn commands_from_clicks() {
    assert_eq!(decode_command(1), DialogCommand::Save);
    assert_eq!(decode_command(2), DialogCommand::Cancel);
    assert_eq!(decode_command(1011), DialogCommand::PresetHome);
    assert_eq!(decode_command(1012), DialogCommand::PresetQwerty);
    assert_eq!(decode_command(1013), DialogCommand::PresetReset);
    assert_eq!(decode_command(1023), DialogCommand::PickBackground);
    assert_eq!(decode_command(1024), DialogCommand::PickText);
    assert_eq!(decode_command(1010), DialogCommand::Other);
    // A notification other than a click.
    assert_eq!(decode_command((0x0300 << 16) | 1), DialogCommand::Other);
    assert_eq!(preset_alphabet(DialogCommand::PresetHome).unwrap(), "asdfghjkl");
    assert_eq!(preset_alphabet(DialogCommand::PresetQwerty).unwrap(), "qwertasdfgzxcvb");
    assert_eq!(preset_alphabet(DialogCommand::PresetReset).unwrap(), "qwertasdfgzxcvb");
    assert!(preset_alphabet(DialogCommand::Save).is_none());
}

#[test]
fn slider_is_clamped() {
    assert_eq!(slider_font_size(3), 10);
    assert_eq!(slider_font_size(17), 17);
    assert_eq!(slider_font_size(40), 24);
}

#[test]
fn numbers_as_parse_reads_them() {
    assert_eq!(parse_usize("500"), Some(500));
    assert_eq!(parse_usize("+12"), Some(12));
    assert_eq!(parse_usize("007"), Some(7));
    assert_eq!(parse_usize(""), None);
    assert_eq!(parse_usize("+"), None);
    assert_eq!(parse_usize("-1"), None);
    assert_eq!(parse_usize("12a"), None);
    assert_eq!(parse_usize(" 12"), None);
    assert_eq!(parse_usize("99999999999999999999999"), None);
    assert_eq!(parse_usize(&usize::MAX.to_string()), Some(usize::MAX));
}

#[test]
fn form_is_copied_then_checked() {
    let mut draft = Config::default();
    let r = apply_form(&mut draft, MOD_ALT | MOD_WIN, 0x48, "asdfghjkl".to_string(), 30, 1, 2, "100");
    assert_eq!(r, Ok(()));
    assert_eq!(draft.hint_hotkey_modifiers, MOD_ALT | MOD_WIN);
    assert_eq!(draft.hint_hotkey_vk, 0x48);
    assert_eq!(draft.hint_alphabet, "asdfghjkl");
    assert_eq!(draft.font_size, 24);
    assert_eq!((draft.badge_bg_color, draft.badge_text_color), (1, 2));
    assert_eq!(draft.max_elements, 100);

    let mut d2 = Config::default();
    let r = apply_form(&mut d2, MOD_CONTROL, 0x41, "abc".to_string(), 12, 3, 4, "x");
    assert_eq!(r, Err(FormError::MaxElementsNotNumber));
    assert_eq!(d2.hint_alphabet, "abc");
    assert_eq!(d2.max_elements, 500);

    let r = apply_form(&mut d2, MOD_CONTROL, 0x41, "abc".to_string(), 12, 3, 4, "50");
    assert_eq!(r, Err(FormError::Alphabet(ConfigError::AlphabetTooShort)));

    let r = apply_form(&mut d2, 0, 0x41, "asdfghjkl".to_string(), 12, 3, 4, "50");
    assert_eq!(r, Err(FormError::Hotkey(ConfigError::HotkeyNoModifier)));

    let r = apply_form(&mut d2, MOD_SHIFT, 0x41, "asdfghjkl".to_string(), 12, 3, 4, "5");
    assert_eq!(r, Err(FormError::Config(ConfigError::MaxElementsOutOfRange)));
}
