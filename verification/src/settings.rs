//! The settings dialog's decisions: which command a click is, and how the form's
//! fields become the configuration that is saved.
use vstd::prelude::*;
use crate::config::{
    config_check, hotkey_check, modifier_bits, parse_alphabet_spec, validate_alphabet_str,
    Config, ConfigError, DEFAULT_ALPHABET, MOD_ALT, MOD_CONTROL, MOD_SHIFT, MOD_WIN,
};

verus! {

pub const IDC_HOTKEY: i32 = 1001;

pub const IDC_CHK_WIN: i32 = 1002;

pub const IDC_ALPHABET: i32 = 1010;

pub const IDC_PRESET_HOME: i32 = 1011;

pub const IDC_PRESET_QWERTY: i32 = 1012;

pub const IDC_PRESET_RESET: i32 = 1013;

pub const IDC_FONT_SLIDER: i32 = 1020;

pub const IDC_FONT_LABEL: i32 = 1021;

pub const IDC_MAX_ELEMENTS: i32 = 1022;

pub const IDC_BG_COLOR: i32 = 1023;

pub const IDC_TEXT_COLOR: i32 = 1024;

pub const IDC_ERROR: i32 = 1030;

pub const IDC_SAVE: i32 = 1;

pub const IDC_CANCEL: i32 = 2;

/// The home-row preset of hint letters.
pub const HOME_ROW_ALPHABET: &'static str = "asdfghjkl";

/// What a click in the dialog asks for.
#[derive(Debug, Clone, Copy, PartialEq, Eq, Structural)]
pub enum DialogCommand {
    Save,
    Cancel,
    PresetHome,
    PresetQwerty,
    PresetReset,
    PickBackground,
    PickText,
    Other,
}

/// The command of a `WM_COMMAND` whose parameter is `wparam`: the control's id in
/// the low 16 bits, the notification code (0 for a click) in the next 16.
pub open spec fn command_of(wparam: usize) -> DialogCommand {
    let id = wparam % 0x10000;
    let code = (wparam / 0x10000) % 0x10000;
    if code != 0 {
        DialogCommand::Other
    } else if id == 1 {
        DialogCommand::Save
    } else if id == 2 {
        DialogCommand::Cancel
    } else if id == 1011 {
        DialogCommand::PresetHome
    } else if id == 1012 {
        DialogCommand::PresetQwerty
    } else if id == 1013 {
        DialogCommand::PresetReset
    } else if id == 1023 {
        DialogCommand::PickBackground
    } else if id == 1024 {
        DialogCommand::PickText
    } else {
        DialogCommand::Other
    }
}

pub fn decode_command(wparam: usize) -> (r: DialogCommand)
    ensures
        r == command_of(wparam),
{
    let id = (wparam & 0xFFFF) as i32;
    let code = ((wparam >> 16) & 0xFFFF) as u16;
    assert(wparam & 0xFFFF == wparam % 0x10000) by (bit_vector);
    assert((wparam >> 16) & 0xFFFF == (wparam / 0x10000) % 0x10000) by (bit_vector);
    if code != 0 {
        return DialogCommand::Other;
    }
    if id == IDC_SAVE {
        DialogCommand::Save
    } else if id == IDC_CANCEL {
        DialogCommand::Cancel
    } else if id == IDC_PRESET_HOME {
        DialogCommand::PresetHome
    } else if id == IDC_PRESET_QWERTY {
        DialogCommand::PresetQwerty
    } else if id == IDC_PRESET_RESET {
        DialogCommand::PresetReset
    } else if id == IDC_BG_COLOR {
        DialogCommand::PickBackground
    } else if id == IDC_TEXT_COLOR {
        DialogCommand::PickText
    } else {
        DialogCommand::Other
    }
}

/// The letters a preset button puts into the alphabet field.
pub fn preset_alphabet(command: DialogCommand) -> (r: Option<String>)
    ensures
        command == DialogCommand::PresetHome ==> (r matches Some(s) && s@ == HOME_ROW_ALPHABET@),
        (command == DialogCommand::PresetQwerty || command == DialogCommand::PresetReset) ==> (r matches Some(s) && s@ == DEFAULT_ALPHABET@),
        !(command == DialogCommand::PresetHome || command == DialogCommand::PresetQwerty || command
            == DialogCommand::PresetReset) ==> r is None,
{
    match command {
        DialogCommand::PresetHome => Some(String::from_str(HOME_ROW_ALPHABET)),
        DialogCommand::PresetQwerty => Some(String::from_str(DEFAULT_ALPHABET)),
        DialogCommand::PresetReset => {
            let d = Config::default();
            Some(d.hint_alphabet)
        },
        _ => None,
    }
}

/// The font slider's position, kept within 10..=24.
pub fn slider_font_size(pos: i32) -> (r: i32)
    ensures
        r == if pos < 10 {
            10
        } else if pos > 24 {
            24
        } else {
            pos
        },
{
    if pos < 10 {
        10
    } else if pos > 24 {
        24
    } else {
        pos
    }
}

/// Value of a string of decimal digits.
pub open spec fn digits_value(d: Seq<char>) -> nat
    decreases d.len(),
{
    if d.len() == 0 {
        0
    } else {
        digits_value(d.drop_last()) * 10 + (d.last() as u32 - '0' as u32) as nat
    }
}

pub open spec fn is_digit(c: char) -> bool {
    '0' as u32 <= c as u32 && c as u32 <= '9' as u32
}

/// What follows an optional leading `+`.
pub open spec fn unsigned_digits(s: Seq<char>) -> Seq<char> {
    if s.len() > 0 && s[0] == '+' {
        s.skip(1)
    } else {
        s
    }
}

/// Reading an unsigned number the way `str::parse::<usize>` does: an optional `+`,
/// then at least one decimal digit and nothing else, the value fitting in `usize`.
pub open spec fn parse_usize_spec(s: Seq<char>) -> Option<nat> {
    let d = unsigned_digits(s);
    if d.len() == 0 || exists|i: int| 0 <= i < d.len() && !is_digit(#[trigger] d[i]) {
        None
    } else if digits_value(d) > usize::MAX {
        None
    } else {
        Some(digits_value(d))
    }
}

proof fn lemma_digits_value_grows(d: Seq<char>, i: int)
    requires
        0 <= i <= d.len(),
        forall|j: int| 0 <= j < d.len() ==> is_digit(#[trigger] d[j]),
    ensures
        digits_value(d.take(i)) <= digits_value(d),
    decreases d.len() - i,
{
    if i < d.len() {
        lemma_digits_value_grows(d, i + 1);
        assert(d.take(i + 1).drop_last() =~= d.take(i));
        assert(is_digit(d[i]));
    } else {
        assert(d.take(i) =~= d);
    }
}

/// Parses the element limit typed into the dialog.
pub fn parse_usize(s: &str) -> (r: Option<usize>)
    ensures
        match parse_usize_spec(s@) {
            Some(v) => r == Some(v as usize),
            None => r is None,
        },
{
    let chars = crate::text::chars_of(s);
    let n = chars.len();
    let mut start: usize = 0;
    if n > 0 && chars[0] == '+' {
        start = 1;
    }
    let ghost d = unsigned_digits(s@);
    assert(d =~= s@.skip(start as int));
    if start == n {
        return None;
    }
    let mut value: usize = 0;
    let mut i: usize = start;
    while i < n
        invariant
            chars@ == s@,
            n == s@.len(),
            start <= i <= n,
            d == s@.skip(start as int),
            d == unsigned_digits(s@),
            forall|j: int| 0 <= j < i - start ==> is_digit(#[trigger] d[j]),
            value == digits_value(d.take(i - start)),
        decreases n - i,
    {
        let c = chars[i];
        assert(d[i - start] == c);
        if !((c as u32) >= 48 && (c as u32) <= 57) {
            assert(!is_digit(d[i - start]));
            return None;
        }
        assert(d.take(i - start + 1).drop_last() =~= d.take(i - start));
        assert(d.take(i - start + 1).last() == c);
        assert(digits_value(d.take(i - start + 1)) == value * 10 + (c as u32 - 48));
        let digit = (c as u32 - 48) as usize;
        match value.checked_mul(10) {
            Some(v10) => match v10.checked_add(digit) {
                Some(v) => {
                    value = v;
                },
                None => {
                    proof {
                        if forall|j: int| 0 <= j < d.len() ==> is_digit(#[trigger] d[j]) {
                            lemma_digits_value_grows(d, i - start + 1);
                        }
                    }
                    return None;
                },
            },
            None => {
                proof {
                    if forall|j: int| 0 <= j < d.len() ==> is_digit(#[trigger] d[j]) {
                        lemma_digits_value_grows(d, i - start + 1);
                    }
                }
                return None;
            },
        }
        i = i + 1;
    }
    assert(d.take(n - start) =~= d);
    Some(value)
}

/// Why the form's fields cannot be saved.
#[derive(Debug, Clone, Copy, PartialEq, Eq, Structural)]
pub enum FormError {
    /// The element limit is not a number.
    MaxElementsNotNumber,
    /// The alphabet field is refused.
    Alphabet(ConfigError),
    /// The chord is refused.
    Hotkey(ConfigError),
    /// The configuration as a whole is refused.
    Config(ConfigError),
}

/// Copies the dialog's fields into `draft`, in the dialog's order, and checks the
/// result: the chord from `mods` and `vk`, the alphabet, the font size from the
/// slider, the two colors, then the element limit read from its text (on a
/// failure there the earlier fields stay copied); then the alphabet, the chord and
/// the whole configuration are checked.
pub fn apply_form(
    draft: &mut Config,
    mods: u32,
    vk: u32,
    alphabet: String,
    slider_pos: i32,
    bg: u32,
    fg: u32,
    max_elements_text: &str,
) -> (r: Result<(), FormError>)
    ensures
        final(draft).hint_hotkey_modifiers == modifier_bits(
            mods & MOD_CONTROL != 0,
            mods & MOD_SHIFT != 0,
            mods & MOD_ALT != 0,
            mods & MOD_WIN != 0,
        ),
        final(draft).hint_hotkey_vk == vk,
        final(draft).hint_alphabet@ == alphabet@,
        final(draft).font_size == if slider_pos < 10 {
            10
        } else if slider_pos > 24 {
            24
        } else {
            slider_pos
        },
        final(draft).badge_bg_color == bg,
        final(draft).badge_text_color == fg,
        match parse_usize_spec(max_elements_text@) {
            None => final(draft).max_elements == old(draft).max_elements && r == Err::<
                (),
                FormError,
            >(FormError::MaxElementsNotNumber),
            Some(v) => {
                &&& final(draft).max_elements == v
                &&& r == match parse_alphabet_spec(alphabet@) {
                    Err(e) => Err(FormError::Alphabet(e)),
                    Ok(_) => match hotkey_check(
                        final(draft).hint_hotkey_modifiers,
                        final(draft).hint_hotkey_vk,
                    ) {
                        Err(e) => Err(FormError::Hotkey(e)),
                        Ok(_) => match config_check(*final(draft)) {
                            Err(e) => Err(FormError::Config(e)),
                            Ok(_) => Ok(()),
                        },
                    },
                }
            },
        },
{
    draft.set_hotkey_from_parts(
        mods & MOD_CONTROL != 0,
        mods & MOD_SHIFT != 0,
        mods & MOD_ALT != 0,
        mods & MOD_WIN != 0,
        vk,
    );
    draft.hint_alphabet = alphabet;
    draft.font_size = slider_font_size(slider_pos);
    draft.badge_bg_color = bg;
    draft.badge_text_color = fg;
    match parse_usize(max_elements_text) {
        None => {
            return Err(FormError::MaxElementsNotNumber);
        },
        Some(v) => {
            draft.max_elements = v;
        },
    }
    match validate_alphabet_str(draft.hint_alphabet.as_str()) {
        Err(e) => {
            return Err(FormError::Alphabet(e));
        },
        Ok(_) => {},
    }
    match draft.validate_hotkey() {
        Err(e) => {
            return Err(FormError::Hotkey(e));
        },
        Ok(_) => {},
    }
    match draft.validate() {
        Err(e) => Err(FormError::Config(e)),
        Ok(_) => Ok(()),
    }
}

} // verus!
