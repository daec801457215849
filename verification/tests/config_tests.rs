use keynav::config::{
    is_modifier_vk, validate_alphabet_str, vk_display_name, Config, ConfigError, MOD_ALT,
    MOD_CONTROL, MOD_SHIFT, MOD_WIN,
};

#[test]
fn parse_default_alphabet() {
    let cfg = Config::default();
    assert_eq!(cfg.parse_alphabet().unwrap().len(), 15);
}

#[test]
fn reject_duplicate_letters() {
    assert!(validate_alphabet_str("aabbccdd").is_err());
}

#[test]
fn hotkey_display_default() {
    assert_eq!(Config::default().hotkey_display(), "Ctrl+Shift+Space");
}

#[test]
fn left_right_modifier_vks_are_modifiers() {
    assert!(is_modifier_vk(0xA0));
    assert!(is_modifier_vk(0xA2));
    assert!(!is_modifier_vk(0x48));
}

#[test]
fn alphabet_is_lowered_and_whitespace_dropped() {
    assert_eq!(
        validate_alphabet_str(" AsDf GhJk ").unwrap(),
        vec!['a', 's', 'd', 'f', 'g', 'h', 'j', 'k']
    );
}

#[test]
fn alphabet_errors() {
    assert_eq!(validate_alphabet_str("abcdefg"), Err(ConfigError::AlphabetTooShort));
    assert_eq!(
        validate_alphabet_str("abcdefghijklmnopqrstuvwxyza"),
        Err(ConfigError::AlphabetTooLong)
    );
    assert_eq!(validate_alphabet_str("abcdefg1"), Err(ConfigError::AlphabetNotLetters));
    assert_eq!(validate_alphabet_str("abcdefgA"), Err(ConfigError::AlphabetDuplicate('a')));
    // Four two-byte letters make eight bytes: long enough, but not ASCII letters.
    assert_eq!(validate_alphabet_str("éééé"), Err(ConfigError::AlphabetNotLetters));
    // Three of them are only six bytes.
    assert_eq!(validate_alphabet_str("ééé"), Err(ConfigError::AlphabetTooShort));
    // Tabs and newlines are whitespace too.
    assert_eq!(validate_alphabet_str("a\tb\nc d\u{3000}e"), Err(ConfigError::AlphabetTooShort));
}

#[test]
fn validate_checks_each_field() {
    let mut cfg = Config::default();
    assert_eq!(cfg.validate(), Ok(()));
    cfg.font_size = 7;
    assert_eq!(cfg.validate(), Err(ConfigError::FontSizeOutOfRange));
    cfg.font_size = 32;
    cfg.max_elements = 2001;
    assert_eq!(cfg.validate(), Err(ConfigError::MaxElementsOutOfRange));
    cfg.max_elements = 10;
    assert_eq!(cfg.validate(), Ok(()));
    cfg.hint_hotkey_modifiers = 0x10;
    assert_eq!(cfg.validate(), Err(ConfigError::HotkeyNoModifier));
    cfg.hint_hotkey_modifiers = MOD_ALT;
    cfg.hint_hotkey_vk = 0x11;
    assert_eq!(cfg.validate(), Err(ConfigError::HotkeyModifierKey));
    cfg.hint_alphabet = "abc".to_string();
    assert_eq!(cfg.validate(), Err(ConfigError::AlphabetTooShort));
}

#[test]
fn hotkey_parts_roundtrip() {
    let mut cfg = Config::default();
    cfg.set_hotkey_from_parts(false, true, true, true, 0x48);
    assert_eq!(cfg.hint_hotkey_modifiers, MOD_ALT | MOD_SHIFT | MOD_WIN);
    assert!(!cfg.hotkey_ctrl());
    assert!(cfg.hotkey_shift());
    assert!(cfg.hotkey_alt());
    assert!(cfg.hotkey_win());
    assert_eq!(cfg.hotkey_display(), "Alt+Shift+Win+H");
    assert_eq!(cfg.hotkey_modifier_bits(), 0xD);
    cfg.set_hotkey_from_parts(true, false, false, false, 0x70);
    assert_eq!(cfg.hint_hotkey_modifiers, MOD_CONTROL);
    assert_eq!(cfg.hotkey_display(), "Ctrl+F1");
}

#[test]
fn key_names() {
    assert_eq!(vk_display_name(0x08), "Backspace");
    assert_eq!(vk_display_name(0x2E), "Delete");
    assert_eq!(vk_display_name(0x41), "A");
    assert_eq!(vk_display_name(0x5A), "Z");
    assert_eq!(vk_display_name(0x30), "\u{0}");
    assert_eq!(vk_display_name(0x39), "\u{9}");
    assert_eq!(vk_display_name(0x60), "Num0");
    assert_eq!(vk_display_name(0x69), "Num9");
    assert_eq!(vk_display_name(0x70), "F1");
    assert_eq!(vk_display_name(0x87), "F24");
    assert_eq!(vk_display_name(0xBA), "Oem186");
    assert_eq!(vk_display_name(0xDF), "Oem223");
    assert_eq!(vk_display_name(0x0A), "VK_0A");
    assert_eq!(vk_display_name(0x100), "VK_100");
    assert_eq!(vk_display_name(0xFFFF_FFFF), "VK_FFFFFFFF");
}

#[test]
fn hard_to_read_letters_are_warned_about() {
    let mut cfg = Config::default();
    assert!(cfg.alphabet_warnings().is_empty());
    cfg.hint_alphabet = "oqwertyuil".to_string();
    let w = cfg.alphabet_warnings();
    assert_eq!(
        w,
        vec![
            "'i' can be hard to read on screen \u{2014} consider removing it".to_string(),
            "'l' can be hard to read on screen \u{2014} consider removing it".to_string(),
            "'o' can be hard to read on screen \u{2014} consider removing it".to_string(),
        ]
    );
}

#[test]
fn default_config_values() {
    let cfg = Config::default();
    assert_eq!(cfg.hint_hotkey_modifiers, MOD_CONTROL | MOD_SHIFT);
    assert_eq!(cfg.hint_hotkey_vk, 0x20);
    assert_eq!(cfg.hint_alphabet, "qwertasdfgzxcvb");
    assert_eq!(cfg.font_size, 14);
    assert_eq!(cfg.badge_bg_color, 0x00CC6600);
    assert_eq!(cfg.badge_text_color, 0x00FFFFFF);
    assert_eq!(cfg.max_elements, 500);
    let copy = cfg.clone();
    assert_eq!(copy.hint_alphabet, cfg.hint_alphabet);
}
