//! User settings: the activation chord, the hint alphabet and the overlay's look,
//! with the rules that a saved configuration must satisfy.
use vstd::prelude::*;
use crate::text::{
    char_string, chars_of, char_utf8_width, decimal, hex_upper_2, is_ascii_alpha,
    is_ascii_alpha_spec, is_whitespace, is_whitespace_spec, push_decimal, push_hex_upper,
    str_contains_char, string_push, to_ascii_lower, to_ascii_lower_spec, utf8_len, utf8_width,
};

verus! {

pub const MOD_ALT: u32 = 0x1;

pub const MOD_CONTROL: u32 = 0x2;

pub const MOD_SHIFT: u32 = 0x4;

pub const MOD_WIN: u32 = 0x8;

/// The default hint letters, in the order in which they are handed out.
pub const DEFAULT_ALPHABET: &'static str = "qwertasdfgzxcvb";

/// Why a configuration (or one of its parts) is refused.
#[derive(Debug, Clone, Copy, PartialEq, Eq, Structural)]
pub enum ConfigError {
    /// Fewer than 8 bytes of letters once whitespace is removed.
    AlphabetTooShort,
    /// More than 26 bytes of letters once whitespace is removed.
    AlphabetTooLong,
    /// A character other than an ASCII letter.
    AlphabetNotLetters,
    /// A letter given twice (compared in lower case).
    AlphabetDuplicate(char),
    /// The chord has none of Ctrl, Shift, Alt, Win.
    HotkeyNoModifier,
    /// The chord's key is itself a modifier key.
    HotkeyModifierKey,
    /// The font size lies outside 8..=32.
    FontSizeOutOfRange,
    /// The element limit lies outside 10..=2000.
    MaxElementsOutOfRange,
}

/// The persisted settings.
#[derive(Debug)]
pub struct Config {
    pub hint_hotkey_modifiers: u32,
    pub hint_hotkey_vk: u32,
    pub hint_alphabet: String,
    pub font_size: i32,
    pub badge_bg_color: u32,
    pub badge_text_color: u32,
    pub max_elements: usize,
}

/// Ctrl+Shift.
pub fn default_hotkey_modifiers() -> (r: u32)
    ensures
        r == MOD_CONTROL | MOD_SHIFT,
{
    MOD_CONTROL | MOD_SHIFT
}

/// The space bar.
pub fn default_hotkey_vk() -> (r: u32)
    ensures
        r == 0x20,
{
    0x20
}

pub fn default_hint_alphabet() -> (r: String)
    ensures
        r@ == DEFAULT_ALPHABET@,
{
    String::from_str(DEFAULT_ALPHABET)
}

pub fn default_font_size() -> (r: i32)
    ensures
        r == 14,
{
    14
}

/// Orange, as a BGR color.
pub fn default_badge_bg() -> (r: u32)
    ensures
        r == 0x00CC6600,
{
    0x00CC6600
}

/// White.
pub fn default_badge_text() -> (r: u32)
    ensures
        r == 0x00FFFFFF,
{
    0x00FFFFFF
}

pub fn default_max_elements() -> (r: usize)
    ensures
        r == 500,
{
    500
}

impl Config {
    /// Every field holds its default.
    pub open spec fn is_default(&self) -> bool {
        &&& self.hint_hotkey_modifiers == MOD_CONTROL | MOD_SHIFT
        &&& self.hint_hotkey_vk == 0x20
        &&& self.hint_alphabet@ == DEFAULT_ALPHABET@
        &&& self.font_size == 14
        &&& self.badge_bg_color == 0x00CC6600
        &&& self.badge_text_color == 0x00FFFFFF
        &&& self.max_elements == 500
    }
}

impl Clone for Config {
    fn clone(&self) -> (r: Self)
        ensures
            r == *self,
    {
        Config {
            hint_hotkey_modifiers: self.hint_hotkey_modifiers,
            hint_hotkey_vk: self.hint_hotkey_vk,
            hint_alphabet: self.hint_alphabet.clone(),
            font_size: self.font_size,
            badge_bg_color: self.badge_bg_color,
            badge_text_color: self.badge_text_color,
            max_elements: self.max_elements,
        }
    }
}

impl Default for Config {
    fn default() -> (r: Self)
        ensures
            r.is_default(),
    {
        Config {
            hint_hotkey_modifiers: default_hotkey_modifiers(),
            hint_hotkey_vk: default_hotkey_vk(),
            hint_alphabet: default_hint_alphabet(),
            font_size: default_font_size(),
            badge_bg_color: default_badge_bg(),
            badge_text_color: default_badge_text(),
            max_elements: default_max_elements(),
        }
    }
}

/// The modifier keys (shift, control, alt, left and right variants, and the two
/// Windows keys), which cannot be the key of a chord.
pub open spec fn is_modifier_vk_spec(vk: u32) -> bool {
    vk == 0x10 || vk == 0x11 || vk == 0x12 || vk == 0x5B || vk == 0x5C || vk == 0xA0 || vk
        == 0xA1 || vk == 0xA2 || vk == 0xA3 || vk == 0xA4 || vk == 0xA5
}

pub fn is_modifier_vk(vk: u32) -> (r: bool)
    ensures
        r == is_modifier_vk_spec(vk),
{
    vk == 0x10 || vk == 0x11 || vk == 0x12 || vk == 0x5B || vk == 0x5C || vk == 0xA0 || vk
        == 0xA1 || vk == 0xA2 || vk == 0xA3 || vk == 0xA4 || vk == 0xA5
}

/// The modifier mask that a chord of the given keys is registered with.
pub open spec fn modifier_bits(ctrl: bool, shift: bool, alt: bool, win: bool) -> u32 {
    (if alt {
        MOD_ALT
    } else {
        0u32
    }) | (if ctrl {
        MOD_CONTROL
    } else {
        0u32
    }) | (if shift {
        MOD_SHIFT
    } else {
        0u32
    }) | (if win {
        MOD_WIN
    } else {
        0u32
    })
}

/// Text shown for a virtual-key code.
pub open spec fn vk_name(vk: u32) -> Seq<char> {
    if vk == 0x08 {
        "Backspace"@
    } else if vk == 0x09 {
        "Tab"@
    } else if vk == 0x0D {
        "Enter"@
    } else if vk == 0x1B {
        "Esc"@
    } else if vk == 0x20 {
        "Space"@
    } else if vk == 0x21 {
        "PageUp"@
    } else if vk == 0x22 {
        "PageDown"@
    } else if vk == 0x23 {
        "End"@
    } else if vk == 0x24 {
        "Home"@
    } else if vk == 0x25 {
        "Left"@
    } else if vk == 0x26 {
        "Up"@
    } else if vk == 0x27 {
        "Right"@
    } else if vk == 0x28 {
        "Down"@
    } else if vk == 0x2D {
        "Insert"@
    } else if vk == 0x2E {
        "Delete"@
    } else if 0x30 <= vk <= 0x39 {
        // The character whose code is the digit's value, as the key's name.
        seq![((vk - 0x30) as u8) as char]
    } else if 0x41 <= vk <= 0x5A {
        seq![(vk as u8) as char]
    } else if 0x60 <= vk <= 0x69 {
        "Num"@ + decimal((vk - 0x60) as nat)
    } else if 0x70 <= vk <= 0x87 {
        "F"@ + decimal((vk - 0x6F) as nat)
    } else if (0xBA <= vk <= 0xC0) || (0xDB <= vk <= 0xDF) {
        "Oem"@ + decimal(vk as nat)
    } else {
        "VK_"@ + hex_upper_2(vk as nat)
    }
}

/// `Alt+`, `Ctrl+`, `Shift+`, `Win+` for the modifiers that are set, in that order,
/// then the key's name.
pub open spec fn hotkey_text(mods: u32, vk: u32) -> Seq<char> {
    (if mods & MOD_ALT != 0 {
        "Alt+"@
    } else {
        Seq::empty()
    }) + (if mods & MOD_CONTROL != 0 {
        "Ctrl+"@
    } else {
        Seq::empty()
    }) + (if mods & MOD_SHIFT != 0 {
        "Shift+"@
    } else {
        Seq::empty()
    }) + (if mods & MOD_WIN != 0 {
        "Win+"@
    } else {
        Seq::empty()
    }) + vk_name(vk)
}

pub fn vk_display_name(vk: u32) -> (r: String)
    ensures
        r@ == vk_name(vk),
{
    if vk == 0x08 {
        String::from_str("Backspace")
    } else if vk == 0x09 {
        String::from_str("Tab")
    } else if vk == 0x0D {
        String::from_str("Enter")
    } else if vk == 0x1B {
        String::from_str("Esc")
    } else if vk == 0x20 {
        String::from_str("Space")
    } else if vk == 0x21 {
        String::from_str("PageUp")
    } else if vk == 0x22 {
        String::from_str("PageDown")
    } else if vk == 0x23 {
        String::from_str("End")
    } else if vk == 0x24 {
        String::from_str("Home")
    } else if vk == 0x25 {
        String::from_str("Left")
    } else if vk == 0x26 {
        String::from_str("Up")
    } else if vk == 0x27 {
        String::from_str("Right")
    } else if vk == 0x28 {
        String::from_str("Down")
    } else if vk == 0x2D {
        String::from_str("Insert")
    } else if vk == 0x2E {
        String::from_str("Delete")
    } else if 0x30 <= vk && vk <= 0x39 {
        char_string(((vk - 0x30) as u8) as char)
    } else if 0x41 <= vk && vk <= 0x5A {
        char_string((vk as u8) as char)
    } else if 0x60 <= vk && vk <= 0x69 {
        let mut s = String::from_str("Num");
        push_decimal(&mut s, vk - 0x60);
        s
    } else if 0x70 <= vk && vk <= 0x87 {
        let mut s = String::from_str("F");
        push_decimal(&mut s, vk - 0x6F);
        s
    } else if (0xBA <= vk && vk <= 0xC0) || (0xDB <= vk && vk <= 0xDF) {
        let mut s = String::from_str("Oem");
        push_decimal(&mut s, vk);
        s
    } else {
        let mut s = String::from_str("VK_");
        if vk < 16 {
            string_push(&mut s, '0');
        }
        push_hex_upper(&mut s, vk);
        proof {
            if vk < 16 {
                assert(crate::text::hex_upper(vk as nat) == seq![crate::text::digit_char(vk as nat)]);
            }
        }
        assert(s@ =~= "VK_"@ + hex_upper_2(vk as nat));
        s
    }
}

/// Letters of the hint alphabet `s`: whitespace is dropped, every remaining character
/// must be an ASCII letter, letters are lowered, and none may repeat.
pub open spec fn alphabet_letters(t: Seq<char>) -> Result<Seq<char>, ConfigError>
    decreases t.len(),
{
    if t.len() == 0 {
        Ok(Seq::empty())
    } else {
        match alphabet_letters(t.drop_last()) {
            Err(e) => Err(e),
            Ok(out) => {
                let c = t.last();
                if !is_ascii_alpha_spec(c) {
                    Err(ConfigError::AlphabetNotLetters)
                } else if out.contains(to_ascii_lower_spec(c)) {
                    Err(ConfigError::AlphabetDuplicate(to_ascii_lower_spec(c)))
                } else {
                    Ok(out.push(to_ascii_lower_spec(c)))
                }
            },
        }
    }
}

/// `s` without its whitespace.
pub open spec fn without_whitespace(s: Seq<char>) -> Seq<char> {
    s.filter(|c: char| !is_whitespace_spec(c))
}

/// What validating the hint alphabet `s` gives: the byte length of `s` without
/// whitespace must lie in 8..=26, then the letters are read as `alphabet_letters` says.
pub open spec fn parse_alphabet_spec(s: Seq<char>) -> Result<Seq<char>, ConfigError> {
    let t = without_whitespace(s);
    if utf8_len(t) < 8 {
        Err(ConfigError::AlphabetTooShort)
    } else if utf8_len(t) > 26 {
        Err(ConfigError::AlphabetTooLong)
    } else {
        alphabet_letters(t)
    }
}

/// What validating the chord (`mods`, `vk`) gives.
pub open spec fn hotkey_check(mods: u32, vk: u32) -> Result<(), ConfigError> {
    if mods & 0x0F == 0 {
        Err(ConfigError::HotkeyNoModifier)
    } else if is_modifier_vk_spec(vk) {
        Err(ConfigError::HotkeyModifierKey)
    } else {
        Ok(())
    }
}

/// The text of the warning about the hard-to-read letter `c`.
pub open spec fn warning_text(c: char) -> Seq<char> {
    "'"@.push(c) + "' can be hard to read on screen \u{2014} consider removing it"@
}

/// Warnings for each of 'i', 'l', 'o' that occurs in `s`, in that order.
pub open spec fn warnings_for(s: Seq<char>) -> Seq<Seq<char>> {
    (if s.contains('i') {
        seq![warning_text('i')]
    } else {
        Seq::empty()
    }) + (if s.contains('l') {
        seq![warning_text('l')]
    } else {
        Seq::empty()
    }) + (if s.contains('o') {
        seq![warning_text('o')]
    } else {
        Seq::empty()
    })
}

fn warning(c: char) -> (r: String)
    ensures
        r@ == warning_text(c),
{
    let mut s = String::from_str("'");
    string_push(&mut s, c);
    s.append("' can be hard to read on screen \u{2014} consider removing it");
    s
}

/// Once a prefix of `t` is refused, so is `t`, for the same reason.
proof fn lemma_letters_error_sticks(t: Seq<char>, k: int)
    requires
        0 <= k <= t.len(),
        alphabet_letters(t.subrange(0, k)) is Err,
    ensures
        alphabet_letters(t) == alphabet_letters(t.subrange(0, k)),
    decreases t.len() - k,
{
    if k < t.len() {
        assert(t.subrange(0, k + 1).drop_last() =~= t.subrange(0, k));
        lemma_letters_error_sticks(t, k + 1);
    } else {
        assert(t.subrange(0, k) =~= t);
    }
}

/// Checks the hint alphabet `s` and returns its letters in lower case.
pub fn validate_alphabet_str(s: &str) -> (r: Result<Vec<char>, ConfigError>)
    ensures
        match r {
            Ok(v) => parse_alphabet_spec(s@) == Ok::<Seq<char>, ConfigError>(v@),
            Err(e) => parse_alphabet_spec(s@) == Err::<Seq<char>, ConfigError>(e),
        },
{
    let chars = chars_of(s);
    let mut trimmed: Vec<char> = Vec::new();
    let mut bytes: u128 = 0;
    let mut i: usize = 0;
    while i < chars.len()
        invariant
            chars@ == s@,
            i <= chars.len(),
            trimmed@ == without_whitespace(chars@.subrange(0, i as int)),
            bytes == utf8_len(trimmed@),
            bytes <= 4 * trimmed@.len(),
            trimmed@.len() <= i,
        decreases chars.len() - i,
    {
        let c = chars[i];
        proof {
            reveal(Seq::filter);
            assert(chars@.subrange(0, i + 1).drop_last() =~= chars@.subrange(0, i as int));
        }
        assert(chars@.subrange(0, i + 1).last() == c);
        if !is_whitespace(c) {
            let ghost before = trimmed@;
            trimmed.push(c);
            bytes = bytes + char_utf8_width(c) as u128;
            assert(trimmed@.drop_last() =~= before);
        }
        i = i + 1;
    }
    assert(chars@.subrange(0, chars@.len() as int) =~= s@);
    assert(trimmed@ == without_whitespace(s@));
    if bytes < 8 {
        return Err(ConfigError::AlphabetTooShort);
    }
    if bytes > 26 {
        return Err(ConfigError::AlphabetTooLong);
    }
    let mut out: Vec<char> = Vec::new();
    let mut k: usize = 0;
    while k < trimmed.len()
        invariant
            k <= trimmed.len(),
            trimmed@ == without_whitespace(s@),
            8 <= utf8_len(trimmed@) <= 26,
            alphabet_letters(trimmed@.subrange(0, k as int)) == Ok::<Seq<char>, ConfigError>(out@),
        decreases trimmed.len() - k,
    {
        let c = trimmed[k];
        assert(trimmed@.subrange(0, k + 1).drop_last() =~= trimmed@.subrange(0, k as int));
        if !is_ascii_alpha(c) {
            proof { lemma_letters_error_sticks(trimmed@, (k + 1) as int); }
            return Err(ConfigError::AlphabetNotLetters);
        }
        let lower = to_ascii_lower(c);
        let mut seen = false;
        let mut j: usize = 0;
        while j < out.len()
            invariant
                j <= out.len(),
                seen == out@.subrange(0, j as int).contains(lower),
            decreases out.len() - j,
        {
            if out[j] == lower {
                seen = true;
            }
            proof {
                let sub = out@.subrange(0, j + 1);
                if seen {
                    if out@[j as int] == lower {
                        assert(sub[j as int] == lower);
                    } else {
                        let w = choose|w: int| 0 <= w < j && out@.subrange(0, j as int)[w] == lower;
                        assert(sub[w] == lower);
                    }
                } else {
                    assert forall|w: int| 0 <= w < sub.len() implies sub[w] != lower by {
                        if w < j {
                            assert(sub[w] == out@.subrange(0, j as int)[w]);
                        }
                    }
                }
            }
            j = j + 1;
        }
        assert(out@.subrange(0, out@.len() as int) =~= out@);
        if seen {
            proof { lemma_letters_error_sticks(trimmed@, (k + 1) as int); }
            return Err(ConfigError::AlphabetDuplicate(lower));
        }
        out.push(lower);
        k = k + 1;
    }
    assert(trimmed@.subrange(0, trimmed@.len() as int) =~= trimmed@);
    Ok(out)
}

/// What validating a whole configuration gives: the alphabet, then the chord, then
/// the font size (8..=32), then the element limit (10..=2000).
pub open spec fn config_check(c: Config) -> Result<(), ConfigError> {
    match parse_alphabet_spec(c.hint_alphabet@) {
        Err(e) => Err(e),
        Ok(_) => match hotkey_check(c.hint_hotkey_modifiers, c.hint_hotkey_vk) {
            Err(e) => Err(e),
            Ok(_) => if c.font_size < 8 || c.font_size > 32 {
                Err(ConfigError::FontSizeOutOfRange)
            } else if c.max_elements < 10 || c.max_elements > 2000 {
                Err(ConfigError::MaxElementsOutOfRange)
            } else {
                Ok(())
            },
        },
    }
}

impl Config {
    /// Checks the whole configuration.
    pub fn validate(&self) -> (r: Result<(), ConfigError>)
        ensures
            r == config_check(*self),
    {
        match self.parse_alphabet() {
            Err(e) => return Err(e),
            Ok(_) => {},
        }
        match self.validate_hotkey() {
            Err(e) => return Err(e),
            Ok(_) => {},
        }
        if self.font_size < 8 || self.font_size > 32 {
            return Err(ConfigError::FontSizeOutOfRange);
        }
        if self.max_elements < 10 || self.max_elements > 2000 {
            return Err(ConfigError::MaxElementsOutOfRange);
        }
        Ok(())
    }

    /// The hint letters, lowered, if the alphabet is acceptable.
    pub fn parse_alphabet(&self) -> (r: Result<Vec<char>, ConfigError>)
        ensures
            match r {
                Ok(v) => parse_alphabet_spec(self.hint_alphabet@) == Ok::<Seq<char>, ConfigError>(v@),
                Err(e) => parse_alphabet_spec(self.hint_alphabet@) == Err::<Seq<char>, ConfigError>(e),
            },
    {
        validate_alphabet_str(self.hint_alphabet.as_str())
    }

    /// A warning for each hard-to-read letter ('i', 'l', 'o') in the alphabet.
    pub fn alphabet_warnings(&self) -> (r: Vec<String>)
        ensures
            r@.map_values(|w: String| w@) == warnings_for(self.hint_alphabet@),
    {
        let mut warnings: Vec<String> = Vec::new();
        let text = self.hint_alphabet.as_str();
        if str_contains_char(text, 'i') {
            warnings.push(warning('i'));
        }
        let ghost after_i = warnings@.map_values(|w: String| w@);
        assert(after_i =~= (if text@.contains('i') { seq![warning_text('i')] } else { Seq::empty() }));
        if str_contains_char(text, 'l') {
            warnings.push(warning('l'));
        }
        let ghost after_l = warnings@.map_values(|w: String| w@);
        assert(after_l =~= after_i + (if text@.contains('l') { seq![warning_text('l')] } else { Seq::empty() }));
        if str_contains_char(text, 'o') {
            warnings.push(warning('o'));
        }
        assert(warnings@.map_values(|w: String| w@) =~= after_l + (if text@.contains('o') { seq![warning_text('o')] } else { Seq::empty() }));
        warnings
    }

    /// The chord needs a modifier and a key that is not itself a modifier.
    pub fn validate_hotkey(&self) -> (r: Result<(), ConfigError>)
        ensures
            r == hotkey_check(self.hint_hotkey_modifiers, self.hint_hotkey_vk),
    {
        let mods = self.hint_hotkey_modifiers & 0x0F;
        if mods == 0 {
            return Err(ConfigError::HotkeyNoModifier);
        }
        if is_modifier_vk(self.hint_hotkey_vk) {
            return Err(ConfigError::HotkeyModifierKey);
        }
        Ok(())
    }

    /// The Ctrl, Shift, Alt and Win bits of the chord.
    pub fn hotkey_modifier_bits(&self) -> (r: u32)
        ensures
            r == self.hint_hotkey_modifiers & 0x0F,
    {
        self.hint_hotkey_modifiers & 0x0F
    }

    pub fn hotkey_ctrl(&self) -> (r: bool)
        ensures
            r == (self.hint_hotkey_modifiers & MOD_CONTROL != 0),
    {
        self.hint_hotkey_modifiers & MOD_CONTROL != 0
    }

    pub fn hotkey_shift(&self) -> (r: bool)
        ensures
            r == (self.hint_hotkey_modifiers & MOD_SHIFT != 0),
    {
        self.hint_hotkey_modifiers & MOD_SHIFT != 0
    }

    pub fn hotkey_alt(&self) -> (r: bool)
        ensures
            r == (self.hint_hotkey_modifiers & MOD_ALT != 0),
    {
        self.hint_hotkey_modifiers & MOD_ALT != 0
    }

    pub fn hotkey_win(&self) -> (r: bool)
        ensures
            r == (self.hint_hotkey_modifiers & MOD_WIN != 0),
    {
        self.hint_hotkey_modifiers & MOD_WIN != 0
    }

    /// Sets the chord from the state of each modifier and the key; nothing else changes.
    pub fn set_hotkey_from_parts(&mut self, ctrl: bool, shift: bool, alt: bool, win: bool, vk: u32)
        ensures
            final(self).hint_hotkey_modifiers == modifier_bits(ctrl, shift, alt, win),
            final(self).hint_hotkey_vk == vk,
            final(self).hint_alphabet == old(self).hint_alphabet,
            final(self).font_size == old(self).font_size,
            final(self).badge_bg_color == old(self).badge_bg_color,
            final(self).badge_text_color == old(self).badge_text_color,
            final(self).max_elements == old(self).max_elements,
    {
        let mods: u32 = (if alt {
            MOD_ALT
        } else {
            0
        }) | (if ctrl {
            MOD_CONTROL
        } else {
            0
        }) | (if shift {
            MOD_SHIFT
        } else {
            0
        }) | (if win {
            MOD_WIN
        } else {
            0
        });
        self.hint_hotkey_modifiers = mods;
        self.hint_hotkey_vk = vk;
    }

    /// The chord as text, such as `Ctrl+Shift+Space`.
    pub fn hotkey_display(&self) -> (r: String)
        ensures
            r@ == hotkey_text(self.hint_hotkey_modifiers, self.hint_hotkey_vk),
    {
        let mut s = String::new();
        if self.hotkey_alt() {
            s.append("Alt+");
        }
        if self.hotkey_ctrl() {
            s.append("Ctrl+");
        }
        if self.hotkey_shift() {
            s.append("Shift+");
        }
        if self.hotkey_win() {
            s.append("Win+");
        }
        let name = vk_display_name(self.hint_hotkey_vk);
        s.append(name.as_str());
        let m = self.hint_hotkey_modifiers;
        assert(s@ =~= hotkey_text(m, self.hint_hotkey_vk));
        s
    }
}

/// Law: the default alphabet is accepted as it stands.
pub proof fn lemma_default_alphabet_valid()
    ensures
        parse_alphabet_spec(DEFAULT_ALPHABET@) == Ok::<Seq<char>, ConfigError>(DEFAULT_ALPHABET@),
{
    reveal_strlit("qwertasdfgzxcvb");
    let s = DEFAULT_ALPHABET@;
    assert(s.len() == 15);
    reveal_with_fuel(Seq::filter, 16);
    assert(without_whitespace(s) =~= s);
    reveal_with_fuel(utf8_len, 16);
    assert(utf8_len(s) == 15);
    assert forall|i: int| 0 <= i < s.len() implies is_lower_letter(#[trigger] s[i]) by {}
    assert(s.no_duplicates());
    lemma_letters_of_clean(s);
}

/// `c` is one of `a`..`z`.
pub open spec fn is_lower_letter(c: char) -> bool {
    'a' as u32 <= c as u32 && c as u32 <= 'z' as u32
}

/// Distinct lower-case letters are read back as they are.
proof fn lemma_letters_of_clean(s: Seq<char>)
    requires
        forall|i: int| 0 <= i < s.len() ==> is_lower_letter(#[trigger] s[i]),
        s.no_duplicates(),
    ensures
        alphabet_letters(s) == Ok::<Seq<char>, ConfigError>(s),
    decreases s.len(),
{
    if s.len() > 0 {
        let d = s.drop_last();
        assert forall|i: int| 0 <= i < d.len() implies is_lower_letter(#[trigger] d[i]) by {
            assert(d[i] == s[i]);
        }
        lemma_letters_of_clean(d);
        assert(is_lower_letter(s[s.len() - 1]));
        if d.contains(s.last()) {
            let i = choose|i: int| 0 <= i < d.len() && d[i] == s.last();
            assert(s[i] == s[s.len() - 1]);
        }
        assert(d.push(s.last()) =~= s);
    } else {
        assert(s =~= Seq::<char>::empty());
    }
}

/// Letters read from an alphabet are distinct lower-case letters.
proof fn lemma_letters_clean(t: Seq<char>)
    requires
        alphabet_letters(t) is Ok,
    ensures
        ({
            let v = alphabet_letters(t)->Ok_0;
            &&& v.len() == t.len()
            &&& v.no_duplicates()
            &&& forall|i: int| 0 <= i < v.len() ==> is_lower_letter(#[trigger] v[i])
            &&& forall|i: int| 0 <= i < t.len() ==> is_ascii_alpha_spec(#[trigger] t[i])
        }),
    decreases t.len(),
{
    if t.len() > 0 {
        lemma_letters_clean(t.drop_last());
        let v = alphabet_letters(t)->Ok_0;
        let w = alphabet_letters(t.drop_last())->Ok_0;
        assert(v == w.push(to_ascii_lower_spec(t.last())));
        assert forall|i: int| 0 <= i < t.len() implies is_ascii_alpha_spec(#[trigger] t[i]) by {
            if i < t.len() - 1 {
                assert(t.drop_last()[i] == t[i]);
            }
        }
        assert forall|i: int| 0 <= i < v.len() implies is_lower_letter(#[trigger] v[i]) by {
            if i < w.len() {
                assert(v[i] == w[i]);
            }
        }
        assert forall|i: int, j: int| 0 <= i < j < v.len() implies v[i] != v[j] by {
            if j < w.len() {
                assert(v[i] == w[i] && v[j] == w[j]);
            } else {
                assert(v[i] == w[i]);
                if v[i] == v[j] {
                    assert(w.contains(v[j]));
                }
            }
        }
    }
}

proof fn lemma_utf8_len_ascii(t: Seq<char>)
    requires
        forall|i: int| 0 <= i < t.len() ==> is_ascii_alpha_spec(#[trigger] t[i]),
    ensures
        utf8_len(t) == t.len(),
    decreases t.len(),
{
    if t.len() > 0 {
        assert forall|i: int| 0 <= i < t.len() - 1 implies is_ascii_alpha_spec(#[trigger] t.drop_last()[i]) by {
            assert(t.drop_last()[i] == t[i]);
        }
        lemma_utf8_len_ascii(t.drop_last());
        assert(is_ascii_alpha_spec(t[t.len() - 1]));
    }
}

/// Law: an accepted alphabet holds between 8 and 26 distinct lower-case letters.
pub proof fn lemma_parsed_alphabet(s: Seq<char>)
    requires
        parse_alphabet_spec(s) is Ok,
    ensures
        ({
            let v = parse_alphabet_spec(s)->Ok_0;
            &&& 8 <= v.len() <= 26
            &&& v.no_duplicates()
            &&& forall|i: int| 0 <= i < v.len() ==> is_lower_letter(#[trigger] v[i])
        }),
{
    let t = without_whitespace(s);
    lemma_letters_clean(t);
    lemma_utf8_len_ascii(t);
}

/// Setting the chord from its parts and reading each modifier back gives the parts.
pub proof fn lemma_hotkey_parts_roundtrip(ctrl: bool, shift: bool, alt: bool, win: bool)
    ensures
        (modifier_bits(ctrl, shift, alt, win) & MOD_CONTROL != 0) == ctrl,
        (modifier_bits(ctrl, shift, alt, win) & MOD_SHIFT != 0) == shift,
        (modifier_bits(ctrl, shift, alt, win) & MOD_ALT != 0) == alt,
        (modifier_bits(ctrl, shift, alt, win) & MOD_WIN != 0) == win,
        (modifier_bits(ctrl, shift, alt, win) & 0x0F == 0) == !(ctrl || shift || alt || win),
{
    let m = modifier_bits(ctrl, shift, alt, win);
    assert(m == (if alt { 1u32 } else { 0u32 }) | (if ctrl { 2u32 } else { 0u32 }) | (if shift { 4u32 } else { 0u32 }) | (if win { 8u32 } else { 0u32 }));
    assert(((if alt { 1u32 } else { 0u32 }) | (if ctrl { 2u32 } else { 0u32 }) | (if shift { 4u32 } else { 0u32 }) | (if win { 8u32 } else { 0u32 })) & 2u32 != 0 <==> ctrl) by (bit_vector);
    assert(((if alt { 1u32 } else { 0u32 }) | (if ctrl { 2u32 } else { 0u32 }) | (if shift { 4u32 } else { 0u32 }) | (if win { 8u32 } else { 0u32 })) & 4u32 != 0 <==> shift) by (bit_vector);
    assert(((if alt { 1u32 } else { 0u32 }) | (if ctrl { 2u32 } else { 0u32 }) | (if shift { 4u32 } else { 0u32 }) | (if win { 8u32 } else { 0u32 })) & 1u32 != 0 <==> alt) by (bit_vector);
    assert(((if alt { 1u32 } else { 0u32 }) | (if ctrl { 2u32 } else { 0u32 }) | (if shift { 4u32 } else { 0u32 }) | (if win { 8u32 } else { 0u32 })) & 8u32 != 0 <==> win) by (bit_vector);
    assert(((if alt { 1u32 } else { 0u32 }) | (if ctrl { 2u32 } else { 0u32 }) | (if shift { 4u32 } else { 0u32 }) | (if win { 8u32 } else { 0u32 })) & 0x0Fu32 == 0 <==> !(ctrl || shift || alt || win)) by (bit_vector);
}


/// Reading distinct ASCII letters lowers each of them and keeps their order.
proof fn lemma_letters_lowered(t: Seq<char>)
    requires
        forall|i: int| 0 <= i < t.len() ==> is_ascii_alpha_spec(#[trigger] t[i]),
        forall|i: int, j: int|
            0 <= i < j < t.len() ==> to_ascii_lower_spec(#[trigger] t[i]) != to_ascii_lower_spec(
                #[trigger] t[j],
            ),
    ensures
        alphabet_letters(t) == Ok::<Seq<char>, ConfigError>(
            t.map_values(|c: char| to_ascii_lower_spec(c)),
        ),
    decreases t.len(),
{
    if t.len() == 0 {
        assert(t.map_values(|c: char| to_ascii_lower_spec(c)) =~= Seq::<char>::empty());
    } else {
        let p = t.drop_last();
        assert forall|i: int| 0 <= i < p.len() implies is_ascii_alpha_spec(#[trigger] p[i]) by {
            assert(p[i] == t[i]);
        }
        assert forall|i: int, j: int| 0 <= i < j < p.len() implies to_ascii_lower_spec(
            #[trigger] p[i],
        ) != to_ascii_lower_spec(#[trigger] p[j]) by {
            assert(p[i] == t[i] && p[j] == t[j]);
        }
        lemma_letters_lowered(p);
        let out = p.map_values(|c: char| to_ascii_lower_spec(c));
        let c = t.last();
        assert(is_ascii_alpha_spec(t[t.len() - 1]));
        if out.contains(to_ascii_lower_spec(c)) {
            let k = choose|k: int| 0 <= k < out.len() && out[k] == to_ascii_lower_spec(c);
            assert(out[k] == to_ascii_lower_spec(t[k]));
            assert(to_ascii_lower_spec(t[k]) != to_ascii_lower_spec(t[t.len() - 1]));
        }
        assert(out.push(to_ascii_lower_spec(c)) =~= t.map_values(|c: char| to_ascii_lower_spec(c)));
    }
}

/// Law: a hint alphabet that holds, once whitespace is dropped, 8 to 26 ASCII letters
/// that are distinct ignoring case is accepted, and read back as those letters in
/// lower case, in their order.
pub proof fn lemma_alphabet_accepted(s: Seq<char>)
    requires
        8 <= without_whitespace(s).len() <= 26,
        forall|i: int|
            0 <= i < without_whitespace(s).len() ==> is_ascii_alpha_spec(
                #[trigger] without_whitespace(s)[i],
            ),
        forall|i: int, j: int|
            0 <= i < j < without_whitespace(s).len() ==> to_ascii_lower_spec(
                #[trigger] without_whitespace(s)[i],
            ) != to_ascii_lower_spec(#[trigger] without_whitespace(s)[j]),
    ensures
        parse_alphabet_spec(s) == Ok::<Seq<char>, ConfigError>(
            without_whitespace(s).map_values(|c: char| to_ascii_lower_spec(c)),
        ),
{
    let t = without_whitespace(s);
    lemma_utf8_len_ascii(t);
    lemma_letters_lowered(t);
}

/// Law: an alphabet is refused as too long only when its text without whitespace
/// takes more than 26 bytes, and as too short only when it takes fewer than 8.
pub proof fn lemma_alphabet_length_errors(s: Seq<char>)
    ensures
        parse_alphabet_spec(s) == Err::<Seq<char>, ConfigError>(ConfigError::AlphabetTooLong)
            ==> utf8_len(without_whitespace(s)) > 26,
        parse_alphabet_spec(s) == Err::<Seq<char>, ConfigError>(ConfigError::AlphabetTooShort)
            ==> utf8_len(without_whitespace(s)) < 8,
        8 <= utf8_len(without_whitespace(s)) <= 26 ==> parse_alphabet_spec(s) == alphabet_letters(
            without_whitespace(s),
        ),
{
    let t = without_whitespace(s);
    if utf8_len(t) >= 8 && utf8_len(t) <= 26 {
        lemma_letters_not_length_error(t);
    }
}

/// Reading letters never fails for their number.
proof fn lemma_letters_not_length_error(t: Seq<char>)
    ensures
        alphabet_letters(t) != Err::<Seq<char>, ConfigError>(ConfigError::AlphabetTooLong),
        alphabet_letters(t) != Err::<Seq<char>, ConfigError>(ConfigError::AlphabetTooShort),
    decreases t.len(),
{
    if t.len() > 0 {
        lemma_letters_not_length_error(t.drop_last());
    }
}

/// Law: a chord lacks a modifier only when none of Ctrl, Shift, Alt and Win is held.
/// Any one of them (Win alone included) with a key that is not itself a modifier key
/// makes an acceptable chord.
pub proof fn lemma_hotkey_any_modifier(ctrl: bool, shift: bool, alt: bool, win: bool, vk: u32)
    ensures
        (ctrl || shift || alt || win) && !is_modifier_vk_spec(vk) ==> hotkey_check(
            modifier_bits(ctrl, shift, alt, win),
            vk,
        ) == Ok::<(), ConfigError>(()),
        (ctrl || shift || alt || win) ==> hotkey_check(modifier_bits(ctrl, shift, alt, win), vk)
            != Err::<(), ConfigError>(ConfigError::HotkeyNoModifier),
        !(ctrl || shift || alt || win) ==> hotkey_check(modifier_bits(ctrl, shift, alt, win), vk)
            == Err::<(), ConfigError>(ConfigError::HotkeyNoModifier),
{
    lemma_hotkey_parts_roundtrip(ctrl, shift, alt, win);
}

/// Law: a modifier mask with the Alt (1), Ctrl (2), Shift (4) or Win (8) bit set is
/// never refused for lacking a modifier.
pub proof fn lemma_hotkey_mask_has_modifier(mods: u32, vk: u32)
    ensures
        (mods & 1 != 0 || mods & 2 != 0 || mods & 4 != 0 || mods & 8 != 0) ==> hotkey_check(
            mods,
            vk,
        ) != Err::<(), ConfigError>(ConfigError::HotkeyNoModifier),
{
    assert((mods & 1u32 != 0 || mods & 2u32 != 0 || mods & 4u32 != 0 || mods & 8u32 != 0) ==> mods
        & 0x0Fu32 != 0) by (bit_vector);
}

/// Law: each named key of the Windows virtual-key table gets its own name, and no other
/// key code is shown with that name: Backspace (VK_BACK, 0x08), Tab (VK_TAB, 0x09),
/// Enter (VK_RETURN, 0x0D), Esc (VK_ESCAPE, 0x1B), Space (VK_SPACE, 0x20), PageUp
/// (VK_PRIOR, 0x21), PageDown (VK_NEXT, 0x22), End (VK_END, 0x23), Home (VK_HOME, 0x24),
/// Left, Up, Right, Down (VK_LEFT..VK_DOWN, 0x25..0x28), Insert (VK_INSERT, 0x2D),
/// Delete (VK_DELETE, 0x2E).
pub proof fn lemma_key_names(vk: u32)
    ensures
        (vk_name(vk) == "Backspace"@) == (vk == 0x08),
        (vk_name(vk) == "Tab"@) == (vk == 0x09),
        (vk_name(vk) == "Enter"@) == (vk == 0x0D),
        (vk_name(vk) == "Esc"@) == (vk == 0x1B),
        (vk_name(vk) == "Space"@) == (vk == 0x20),
        (vk_name(vk) == "PageUp"@) == (vk == 0x21),
        (vk_name(vk) == "PageDown"@) == (vk == 0x22),
        (vk_name(vk) == "End"@) == (vk == 0x23),
        (vk_name(vk) == "Home"@) == (vk == 0x24),
        (vk_name(vk) == "Left"@) == (vk == 0x25),
        (vk_name(vk) == "Up"@) == (vk == 0x26),
        (vk_name(vk) == "Right"@) == (vk == 0x27),
        (vk_name(vk) == "Down"@) == (vk == 0x28),
        (vk_name(vk) == "Insert"@) == (vk == 0x2D),
        (vk_name(vk) == "Delete"@) == (vk == 0x2E),
{
    reveal_strlit("Backspace");
    reveal_strlit("Tab");
    reveal_strlit("Enter");
    reveal_strlit("Esc");
    reveal_strlit("Space");
    reveal_strlit("PageUp");
    reveal_strlit("PageDown");
    reveal_strlit("End");
    reveal_strlit("Home");
    reveal_strlit("Left");
    reveal_strlit("Up");
    reveal_strlit("Right");
    reveal_strlit("Down");
    reveal_strlit("Insert");
    reveal_strlit("Delete");
    reveal_strlit("Num");
    reveal_strlit("F");
    reveal_strlit("Oem");
    reveal_strlit("VK_");
    assert("Backspace"@[0] == 'B' && "Backspace"@[1] == 'a');
    assert("Tab"@[0] == 'T' && "Tab"@[1] == 'a');
    assert("Enter"@[0] == 'E' && "Enter"@[1] == 'n');
    assert("Esc"@[0] == 'E' && "Esc"@[1] == 's');
    assert("Space"@[0] == 'S' && "Space"@[1] == 'p');
    assert("PageUp"@[0] == 'P' && "PageUp"@[1] == 'a');
    assert("PageDown"@[0] == 'P' && "PageDown"@[1] == 'a');
    assert("End"@[0] == 'E' && "End"@[1] == 'n');
    assert("Home"@[0] == 'H' && "Home"@[1] == 'o');
    assert("Left"@[0] == 'L' && "Left"@[1] == 'e');
    assert("Up"@[0] == 'U' && "Up"@[1] == 'p');
    assert("Right"@[0] == 'R' && "Right"@[1] == 'i');
    assert("Down"@[0] == 'D' && "Down"@[1] == 'o');
    assert("Insert"@[0] == 'I' && "Insert"@[1] == 'n');
    assert("Delete"@[0] == 'D' && "Delete"@[1] == 'e');
    assert("Num"@[0] == 'N' && "Num"@[1] == 'u');
    assert("Oem"@[0] == 'O' && "Oem"@[1] == 'e');
    assert("VK_"@[0] == 'V' && "VK_"@[1] == 'K');
    let n = vk_name(vk);
    assert(n.len() >= 1);
    assert(n.len() == 1 || n[0] == 'N' || n[0] == 'F' || n[0] == 'O' || n[0] == 'V' || (
    0x08 <= vk <= 0x2E));
}

} // verus!
