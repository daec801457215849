use keynav::config::{Config, DEFAULT_ALPHABET, MOD_CONTROL, MOD_SHIFT};
use keynav::geometry::{ScannedElement, ScreenRect};
use keynav::labels::{assign_hints, HintTarget};
use keynav::matcher::{HintMatcher, MatchResult};
use keynav::session::{
    chord_matches, hint_alphabet, hook_step, HintSession, HookStep, KeyOutcome, VK_BACK,
    VK_ESCAPE,
};

fn element(n: usize) -> ScannedElement {
    ScannedElement {
        name: format!("e{n}"),
        control_type: 50000,
        rect: ScreenRect { left: 10 * n as i32, top: 5, right: 10 * n as i32 + 8, bottom: 13 },
        element: n,
        target_hwnd: 1,
    }
}

fn targets(n: usize, alphabet: &str) -> Vec<HintTarget> {
    let alpha: Vec<char> = alphabet.chars().collect();
    assign_hints((0..n).map(element).collect(), &alpha)
}

#[test]
fn matcher_push_pop_clear() {
    let mut m = HintMatcher::new();
    assert_eq!(m.prefix(), "");
    assert!(matches!(m.evaluate(), MatchResult::Partial));
    assert!(matches!(m.push_char('q'), MatchResult::NoMatch));
    assert!(matches!(m.push_char('w'), MatchResult::NoMatch));
    assert_eq!(m.prefix(), "qw");
    m.pop_char();
    assert_eq!(m.prefix(), "q");
    m.pop_char();
    m.pop_char();
    assert_eq!(m.prefix(), "");
    m.push_char('x');
    m.clear();
    assert_eq!(m.prefix(), "");
}

#[test]
fn matcher_outcomes() {
    let ts = targets(9, "abc");
    let mut m = HintMatcher::new();
    assert!(matches!(m.evaluate_against(&ts), MatchResult::Partial));
    m.push_char('a');
    assert!(matches!(m.evaluate_against(&ts), MatchResult::Partial));
    m.push_char('b');
    match m.evaluate_against(&ts) {
        MatchResult::Unique(t) => {
            assert_eq!(t.label, "ab");
            assert_eq!(t.element.element, 1);
        }
        _ => panic!("expected a unique match"),
    }
    m.clear();
    m.push_char('x');
    assert!(matches!(m.evaluate_against(&ts), MatchResult::NoMatch));
}

#[test]
fn matcher_single_candidate_not_yet_complete_is_partial() {
    let ts = targets(4, "abc");
    // Labels: aa ab ac ba; "b" leaves only "ba", not yet typed in full.
    let mut m = HintMatcher::new();
    m.push_char('b');
    assert!(matches!(m.evaluate_against(&ts), MatchResult::Partial));
}

#[test]
fn session_typing_a_label_activates_it() {
    let mut s = HintSession::new();
    assert!(!s.is_hint_mode());
    assert!(matches!(s.handle_key(0x41), KeyOutcome::Ignored));
    let alpha: Vec<char> = DEFAULT_ALPHABET.chars().collect();
    s.begin((0..20).map(element).collect(), &alpha);
    assert!(s.is_hint_mode());
    assert_eq!(s.hint_targets().len(), 20);
    assert_eq!(s.typed_prefix(), "");
    // 20 targets over 15 letters: two-letter labels qq, qw, ...
    assert!(matches!(s.handle_key(0x51), KeyOutcome::Redraw));
    assert_eq!(s.typed_prefix(), "q");
    assert!(matches!(s.handle_key(0x31), KeyOutcome::Ignored));
    match s.handle_key(0x57) {
        KeyOutcome::Activate(t) => {
            assert_eq!(t.label, "qw");
            assert_eq!(t.element.element, 1);
        }
        _ => panic!("expected activation"),
    }
    assert!(!s.is_hint_mode());
    assert!(s.hint_targets().is_empty());
    assert_eq!(s.typed_prefix(), "");
}

#[test]
fn session_backspace_escape_and_misses() {
    let mut s = HintSession::new();
    let alpha: Vec<char> = DEFAULT_ALPHABET.chars().collect();
    s.begin((0..20).map(element).collect(), &alpha);
    assert!(matches!(s.handle_key(0x57), KeyOutcome::Redraw));
    // "wz" is not a label's beginning: the letter is dropped again.
    assert!(matches!(s.handle_key(0x4A), KeyOutcome::Ignored));
    assert_eq!(s.typed_prefix(), "w");
    assert!(matches!(s.handle_key(VK_BACK), KeyOutcome::Redraw));
    assert_eq!(s.typed_prefix(), "");
    assert!(matches!(s.handle_key(VK_BACK), KeyOutcome::Redraw));
    assert!(matches!(s.handle_key(VK_ESCAPE), KeyOutcome::Cancelled));
    assert!(!s.is_hint_mode());
    assert!(s.hint_targets().is_empty());
}

#[test]
fn session_display_failure_keeps_targets_until_finish() {
    let mut s = HintSession::new();
    let alpha: Vec<char> = "asdfghjkl".chars().collect();
    s.begin((0..3).map(element).collect(), &alpha);
    s.display_failed();
    assert!(!s.is_hint_mode());
    assert_eq!(s.hint_targets().len(), 3);
    s.finish();
    assert!(s.hint_targets().is_empty());
}

#[test]
fn hook_decisions() {
    assert_eq!(hook_step(-1, true, true, 0x41), HookStep::PassThrough);
    assert_eq!(hook_step(0, false, true, 0x41), HookStep::PassThrough);
    assert_eq!(hook_step(0, true, true, 0x41), HookStep::ForwardKey);
    assert_eq!(hook_step(0, true, true, VK_ESCAPE), HookStep::ForwardKey);
    assert_eq!(hook_step(0, true, true, VK_BACK), HookStep::ForwardKey);
    assert_eq!(hook_step(0, true, true, 0x20), HookStep::PassThrough);
    assert_eq!(hook_step(0, true, false, 0x20), HookStep::CheckChord);
}

#[test]
fn chord_needs_exact_modifiers() {
    let want = MOD_CONTROL | MOD_SHIFT;
    assert!(chord_matches(0x20, 0x20, want, true, true, false, false));
    assert!(!chord_matches(0x20, 0x20, want, true, true, true, false));
    assert!(!chord_matches(0x20, 0x20, want, true, false, false, false));
    assert!(!chord_matches(0x21, 0x20, want, true, true, false, false));
}

#[test]
fn refused_alphabet_falls_back_to_default() {
    let mut cfg = Config::default();
    cfg.hint_alphabet = "ab".to_string();
    let expected: Vec<char> = DEFAULT_ALPHABET.chars().collect();
    assert_eq!(hint_alphabet(&cfg), expected);
    cfg.hint_alphabet = "ASDF GHJK".to_string();
    assert_eq!(hint_alphabet(&cfg), "asdfghjk".chars().collect::<Vec<char>>());
}
