//! The activation chord as Windows takes it: the registration's modifier flags, the
//! hotkey message, and the packed word of the settings dialog's hotkey control.
use vstd::prelude::*;
use crate::config::{modifier_bits, Config, MOD_ALT, MOD_CONTROL, MOD_SHIFT, MOD_WIN};

verus! {

/// Identifier under which the chord is registered.
pub const HOTKEY_ID_HINT: i32 = 1;

/// Registration flag: holding the chord down does not repeat it.
pub const MOD_NOREPEAT: u32 = 0x4000;

/// The window message that announces a registered hotkey.
pub const WM_HOTKEY: u32 = 0x0312;

/// Modifier flags of the hotkey control.
pub const HOTKEYF_SHIFT: u8 = 0x01;

pub const HOTKEYF_CONTROL: u8 = 0x02;

pub const HOTKEYF_ALT: u8 = 0x04;

/// The modifier flags a chord is registered with.
pub fn registration_modifiers(modifiers: u32) -> (r: u32)
    ensures
        r == modifiers | MOD_NOREPEAT,
{
    modifiers | MOD_NOREPEAT
}

/// The message announces the hint chord.
pub fn is_hotkey_message(msg: u32, wparam: usize) -> (r: bool)
    ensures
        r == (msg == WM_HOTKEY && wparam == 1),
{
    msg == WM_HOTKEY && wparam == HOTKEY_ID_HINT as usize
}

/// The hotkey control's flags for the chord's Alt, Ctrl and Shift (it has no Win).
pub open spec fn control_flags(mods: u32) -> u8 {
    (if mods & MOD_ALT != 0 {
        HOTKEYF_ALT
    } else {
        0u8
    }) | (if mods & MOD_CONTROL != 0 {
        HOTKEYF_CONTROL
    } else {
        0u8
    }) | (if mods & MOD_SHIFT != 0 {
        HOTKEYF_SHIFT
    } else {
        0u8
    })
}

fn hotkey_flags(config: &Config) -> (r: u8)
    ensures
        r == control_flags(config.hint_hotkey_modifiers),
{
    (if config.hotkey_alt() {
        HOTKEYF_ALT
    } else {
        0
    }) | (if config.hotkey_ctrl() {
        HOTKEYF_CONTROL
    } else {
        0
    }) | (if config.hotkey_shift() {
        HOTKEYF_SHIFT
    } else {
        0
    })
}

/// The key code in the low byte, the flags in the high byte.
pub fn make_hotkey_word(vk: u8, mods: u8) -> (r: u16)
    ensures
        r == vk + 256 * mods,
{
    assert((vk as u16) | ((mods as u16) << 8u16) == vk + 256 * mods) by (bit_vector);
    (vk as u16) | ((mods as u16) << 8)
}

/// The word that shows the configured chord in the hotkey control (the key code cut
/// to its low byte).
pub fn hotkey_control_word(config: &Config) -> (r: u16)
    ensures
        r == (config.hint_hotkey_vk % 256) + 256 * control_flags(config.hint_hotkey_modifiers),
{
    let vk = config.hint_hotkey_vk;
    assert(vk as u8 == vk % 256) by (bit_vector);
    make_hotkey_word(vk as u8, hotkey_flags(config))
}

/// The chord read back from the hotkey control's word and the Win check box, as
/// (modifiers, key code).
pub fn hotkey_from_control_word(packed: u16, win_checked: bool) -> (r: (u32, u32))
    ensures
        r.0 == modifier_bits(
            (packed / 256) & (HOTKEYF_CONTROL as u16) != 0,
            (packed / 256) & (HOTKEYF_SHIFT as u16) != 0,
            (packed / 256) & (HOTKEYF_ALT as u16) != 0,
            win_checked,
        ),
        r.1 == packed % 256,
{
    let vk = (packed & 0xFF) as u32;
    let flags = (packed >> 8) & 0xFF;
    assert(packed & 0xFF == packed % 256) by (bit_vector);
    assert((packed >> 8u16) & 0xFF == packed / 256) by (bit_vector);
    let mods: u32 = (if flags & (HOTKEYF_ALT as u16) != 0 {
        MOD_ALT
    } else {
        0
    }) | (if flags & (HOTKEYF_CONTROL as u16) != 0 {
        MOD_CONTROL
    } else {
        0
    }) | (if flags & (HOTKEYF_SHIFT as u16) != 0 {
        MOD_SHIFT
    } else {
        0
    }) | (if win_checked {
        MOD_WIN
    } else {
        0
    });
    (mods, vk)
}

/// Law: the chord shown in the settings dialog reads back unchanged (Win through its
/// check box), as long as its key code fits in a byte.
pub proof fn lemma_control_word_roundtrip(mods: u32, vk: u32, packed: u16)
    requires
        vk < 256,
        packed == vk + 256 * control_flags(mods),
    ensures
        packed % 256 == vk,
        modifier_bits(
            (packed / 256) & (HOTKEYF_CONTROL as u16) != 0,
            (packed / 256) & (HOTKEYF_SHIFT as u16) != 0,
            (packed / 256) & (HOTKEYF_ALT as u16) != 0,
            mods & MOD_WIN != 0,
        ) == mods & 0x0F,
{
    let f = control_flags(mods);
    assert(f < 8) by (bit_vector)
        requires
            f == (if mods & 1u32 != 0 { 4u8 } else { 0u8 }) | (if mods & 2u32 != 0 { 2u8 } else { 0u8 }) | (if mods & 4u32 != 0 { 1u8 } else { 0u8 }),
    ;
    assert(packed % 256 == vk);
    assert(packed / 256 == f);
    let fw: u16 = packed / 256;
    assert((fw & 2u16 != 0) == (mods & 2u32 != 0) && (fw & 1u16 != 0) == (mods & 4u32 != 0) && (fw & 4u16 != 0) == (mods & 1u32 != 0)) by (bit_vector)
        requires
            fw == ((if mods & 1u32 != 0 { 4u8 } else { 0u8 }) | (if mods & 2u32 != 0 { 2u8 } else { 0u8 }) | (if mods & 4u32 != 0 { 1u8 } else { 0u8 })) as u16,
    ;
    let c = mods & 2u32 != 0;
    let s = mods & 4u32 != 0;
    let a = mods & 1u32 != 0;
    let w = mods & 8u32 != 0;
    assert(((if a { 1u32 } else { 0u32 }) | (if c { 2u32 } else { 0u32 }) | (if s { 4u32 } else { 0u32 }) | (if w { 8u32 } else { 0u32 })) == mods & 0x0Fu32) by (bit_vector)
        requires
            c == (mods & 2u32 != 0),
            s == (mods & 4u32 != 0),
            a == (mods & 1u32 != 0),
            w == (mods & 8u32 != 0),
    ;
}

} // verus!
