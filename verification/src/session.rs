//! Hint mode: what each key does while hints are shown, and which keystrokes the
//! global keyboard hook takes for itself.
use vstd::prelude::*;
use crate::config::{modifier_bits, parse_alphabet_spec, Config, DEFAULT_ALPHABET};
use crate::geometry::ScannedElement;
use crate::labels::{assign_hints, labels_fit, labels_for, HintTarget};
use crate::matcher::{match_outcome, HintMatcher, MatchResult};
use crate::text::to_ascii_lower_spec;

verus! {

/// Virtual-key code of Backspace.
pub const VK_BACK: u32 = 0x08;

/// Virtual-key code of Esc.
pub const VK_ESCAPE: u32 = 0x1B;

#[derive(Debug, Clone, Copy, PartialEq, Eq, Structural)]
pub enum AppState {
    Idle,
    HintMode,
}

/// What the caller has to do after a key was handled.
#[derive(Debug)]
pub enum KeyOutcome {
    /// Nothing changes on screen.
    Ignored,
    /// Hint mode ended without a choice: hide the hints.
    Cancelled,
    /// The typed prefix changed: show the hints that still match it.
    Redraw,
    /// A hint was typed in full: hide the hints, then activate this target.
    Activate(HintTarget),
}

/// The hint targets on screen and the letters typed so far.
pub struct HintSession {
    state: AppState,
    targets: Vec<HintTarget>,
    matcher: HintMatcher,
}

/// `vk` is a letter key A..Z.
pub open spec fn is_letter_vk(vk: u32) -> bool {
    0x41 <= vk <= 0x5A
}

/// The lower-case letter of the letter key `vk`.
pub open spec fn letter_of(vk: u32) -> char {
    to_ascii_lower_spec((vk as u8) as char)
}

impl HintSession {
    pub closed spec fn state(&self) -> AppState {
        self.state
    }

    pub closed spec fn targets(&self) -> Seq<HintTarget> {
        self.targets@
    }

    /// The letters typed so far.
    pub closed spec fn typed(&self) -> Seq<char> {
        self.matcher@
    }

    /// Not in hint mode, with nothing shown and nothing typed.
    pub open spec fn is_idle_and_clear(&self) -> bool {
        self.state() == AppState::Idle && self.targets() == Seq::<HintTarget>::empty()
            && self.typed() == Seq::<char>::empty()
    }

    pub fn new() -> (r: Self)
        ensures
            r.is_idle_and_clear(),
    {
        HintSession { state: AppState::Idle, targets: Vec::new(), matcher: HintMatcher::new() }
    }

    pub fn is_hint_mode(&self) -> (r: bool)
        ensures
            r == (self.state() == AppState::HintMode),
    {
        self.state == AppState::HintMode
    }

    pub fn hint_targets(&self) -> (r: &[HintTarget])
        ensures
            r@ == self.targets(),
    {
        self.targets.as_slice()
    }

    pub fn typed_prefix(&self) -> (r: &str)
        ensures
            r@ == self.typed(),
    {
        self.matcher.prefix()
    }

    /// Enters hint mode over `elements`, labelled over `alphabet`, with nothing typed.
    pub fn begin(&mut self, elements: Vec<ScannedElement>, alphabet: &[char])
        requires
            labels_fit(elements@.len(), alphabet@),
        ensures
            final(self).state() == AppState::HintMode,
            final(self).typed() == Seq::<char>::empty(),
            final(self).targets().len() == labels_for(elements@.len(), alphabet@).len(),
            forall|i: int|
                0 <= i < final(self).targets().len() ==> (#[trigger] final(self).targets()[i]).element
                    == elements@[i] && final(self).targets()[i].label@ == labels_for(
                    elements@.len(),
                    alphabet@,
                )[i],
    {
        self.targets = assign_hints(elements, alphabet);
        self.matcher.clear();
        self.state = AppState::HintMode;
    }

    /// The hints could not be shown: back to idle, the targets kept until the next
    /// `finish`.
    pub fn display_failed(&mut self)
        ensures
            final(self).state() == AppState::Idle,
            final(self).targets() == old(self).targets(),
            final(self).typed() == old(self).typed(),
    {
        self.state = AppState::Idle;
    }

    /// Leaves hint mode, forgetting the targets and the typed letters.
    pub fn finish(&mut self)
        ensures
            final(self).is_idle_and_clear(),
    {
        self.matcher.clear();
        self.targets = Vec::new();
        self.state = AppState::Idle;
    }

    /// Handles a key pressed in hint mode: Esc cancels, Backspace forgets the last
    /// letter, a letter narrows the hints, and typing a whole label picks its target.
    pub fn handle_key(&mut self, vk: u32) -> (r: KeyOutcome)
        ensures
            old(self).state() != AppState::HintMode ==> (r is Ignored && *final(self) == *old(self)),
            old(self).state() == AppState::HintMode ==> if vk == VK_ESCAPE {
                r is Cancelled && final(self).is_idle_and_clear()
            } else if vk == VK_BACK {
                &&& r is Redraw
                &&& final(self).state() == AppState::HintMode
                &&& final(self).targets() == old(self).targets()
                &&& final(self).typed() == if old(self).typed().len() == 0 {
                    old(self).typed()
                } else {
                    old(self).typed().drop_last()
                }
            } else if is_letter_vk(vk) {
                let typed = old(self).typed().push(letter_of(vk));
                match match_outcome(old(self).targets(), typed) {
                    MatchResult::Partial => {
                        &&& r is Redraw
                        &&& final(self).state() == AppState::HintMode
                        &&& final(self).targets() == old(self).targets()
                        &&& final(self).typed() == typed
                    },
                    MatchResult::Unique(t) => r == KeyOutcome::Activate(t)
                        && final(self).is_idle_and_clear(),
                    MatchResult::NoMatch => {
                        &&& r is Ignored
                        &&& final(self).state() == AppState::HintMode
                        &&& final(self).targets() == old(self).targets()
                        &&& final(self).typed() == old(self).typed()
                    },
                }
            } else {
                r is Ignored && *final(self) == *old(self)
            },
    {
        if self.state != AppState::HintMode {
            return KeyOutcome::Ignored;
        }
        if vk == VK_ESCAPE {
            self.finish();
            return KeyOutcome::Cancelled;
        }
        if vk == VK_BACK {
            self.matcher.pop_char();
            return KeyOutcome::Redraw;
        }
        if 0x41 <= vk && vk <= 0x5A {
            let ch = crate::text::to_ascii_lower((vk as u8) as char);
            let ghost before = self.matcher@;
            let _ = self.matcher.push_char(ch);
            match self.matcher.evaluate_against(self.targets.as_slice()) {
                MatchResult::Partial => KeyOutcome::Redraw,
                MatchResult::Unique(target) => {
                    self.finish();
                    KeyOutcome::Activate(target)
                },
                MatchResult::NoMatch => {
                    self.matcher.pop_char();
                    assert(before.push(ch).drop_last() =~= before);
                    KeyOutcome::Ignored
                },
            }
        } else {
            KeyOutcome::Ignored
        }
    }
}

/// Law: once hint mode has begun over an alphabet without repeated letters,
/// typing the whole label of any target selects exactly that target.
pub proof fn lemma_every_hint_selectable(count: nat, a: Seq<char>, targets: Seq<HintTarget>)
    requires
        a.no_duplicates(),
        labels_fit(count, a),
        targets.len() == labels_for(count, a).len(),
        forall|i: int|
            0 <= i < targets.len() ==> (#[trigger] targets[i]).label@ == labels_for(count, a)[i],
    ensures
        forall|i: int|
            0 <= i < targets.len() ==> match_outcome(targets, (#[trigger] targets[i]).label@)
                == MatchResult::Unique(targets[i]),
{
    crate::labels::lemma_labels_prefix_free(count, a);
    crate::labels::lemma_labels_short(count, a);
    let labels = targets.map_values(|t: HintTarget| t.label@);
    assert(labels =~= labels_for(count, a));
    assert forall|i: int| 0 <= i < targets.len() implies match_outcome(
        targets,
        (#[trigger] targets[i]).label@,
    ) == MatchResult::Unique(targets[i]) by {
        assert(labels_for(count, a)[i].len() >= 1);
        crate::matcher::lemma_full_label_selects(targets, i);
    }
}

/// What the keyboard hook does with a keystroke.
#[derive(Debug, Clone, Copy, PartialEq, Eq, Structural)]
pub enum HookStep {
    /// Hand the keystroke on to the next hook.
    PassThrough,
    /// Swallow the keystroke and send it to hint mode.
    ForwardKey,
    /// Swallow it only if it is the activation chord.
    CheckChord,
}

/// The hook only looks at key presses (`code` not negative): in hint mode it takes
/// Esc, Backspace and the letters; otherwise it looks for the activation chord.
pub open spec fn hook_step_spec(code: i32, is_keydown: bool, hint_active: bool, vk: u32) -> HookStep {
    if code < 0 || !is_keydown {
        HookStep::PassThrough
    } else if hint_active {
        if vk == VK_ESCAPE || vk == VK_BACK || is_letter_vk(vk) {
            HookStep::ForwardKey
        } else {
            HookStep::PassThrough
        }
    } else {
        HookStep::CheckChord
    }
}

pub fn hook_step(code: i32, is_keydown: bool, hint_active: bool, vk: u32) -> (r: HookStep)
    ensures
        r == hook_step_spec(code, is_keydown, hint_active, vk),
{
    if code < 0 || !is_keydown {
        return HookStep::PassThrough;
    }
    if hint_active {
        if vk == VK_ESCAPE || vk == VK_BACK || (0x41 <= vk && vk <= 0x5A) {
            HookStep::ForwardKey
        } else {
            HookStep::PassThrough
        }
    } else {
        HookStep::CheckChord
    }
}

/// The key is the chord's key and exactly the chord's modifiers are held.
pub fn chord_matches(
    vk: u32,
    want_vk: u32,
    want_mods: u32,
    ctrl: bool,
    shift: bool,
    alt: bool,
    win: bool,
) -> (r: bool)
    ensures
        r == (vk == want_vk && modifier_bits(ctrl, shift, alt, win) == want_mods),
{
    if vk != want_vk {
        return false;
    }
    let have: u32 = (if alt {
        crate::config::MOD_ALT
    } else {
        0
    }) | (if ctrl {
        crate::config::MOD_CONTROL
    } else {
        0
    }) | (if shift {
        crate::config::MOD_SHIFT
    } else {
        0
    }) | (if win {
        crate::config::MOD_WIN
    } else {
        0
    });
    have == want_mods
}

/// The letters to label hints with: the configured alphabet, or the default one
/// when the configured one is refused.
pub fn hint_alphabet(config: &Config) -> (r: Vec<char>)
    ensures
        match parse_alphabet_spec(config.hint_alphabet@) {
            Ok(v) => r@ == v,
            Err(_) => r@ == DEFAULT_ALPHABET@,
        },
{
    match config.parse_alphabet() {
        Ok(a) => a,
        Err(_) => {
            let d = Config::default();
            proof {
                crate::config::lemma_default_alphabet_valid();
            }
            match d.parse_alphabet() {
                Ok(a) => a,
                Err(_) => Vec::new(),
            }
        },
    }
}


/// Law: while hints are shown, every key press of a letter key A..Z (0x41..=0x5A, the
/// keys `handle_key` reads as letters), of Esc and of Backspace is taken from the
/// foreground application and handed to hint mode; any other key press passes on.
pub proof fn lemma_hint_keys_forwarded(code: i32, vk: u32)
    requires
        code >= 0,
    ensures
        0x41 <= vk <= 0x5A ==> hook_step_spec(code, true, true, vk) == HookStep::ForwardKey,
        is_letter_vk(vk) ==> hook_step_spec(code, true, true, vk) == HookStep::ForwardKey,
        vk == 0x1B || vk == 0x08 ==> hook_step_spec(code, true, true, vk) == HookStep::ForwardKey,
        !(0x41 <= vk <= 0x5A || vk == 0x1B || vk == 0x08) ==> hook_step_spec(code, true, true, vk)
            == HookStep::PassThrough,
{
}

} // verus!
