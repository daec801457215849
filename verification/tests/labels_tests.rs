use keynav::config::DEFAULT_ALPHABET;
use keynav::geometry::{ScannedElement, ScreenRect};
use keynav::labels::{assign_hints, can_generate_labels, generate_labels};

fn default_alphabet_chars() -> Vec<char> {
    DEFAULT_ALPHABET.chars().collect()
}

fn no_prefix_conflicts(labels: &[String]) -> bool {
    for (i, a) in labels.iter().enumerate() {
        for (j, b) in labels.iter().enumerate() {
            if i != j && (a.starts_with(b) || b.starts_with(a)) {
                return false;
            }
        }
    }
    true
}

fn element(n: usize) -> ScannedElement {
    ScannedElement {
        name: format!("e{n}"),
        control_type: 50000,
        rect: ScreenRect { left: 10 * n as i32, top: 0, right: 10 * n as i32 + 8, bottom: 8 },
        element: n,
        target_hwnd: 7,
    }
}

#[test]
fn single_letter_labels_when_few_targets() {
    let alpha = default_alphabet_chars();
    let labels = generate_labels(5, &alpha);
    assert_eq!(labels, vec!["q", "w", "e", "r", "t"]);
    assert!(no_prefix_conflicts(&labels));
}

#[test]
fn custom_alphabet_home_row() {
    let alpha: Vec<char> = "asdfghjkl".chars().collect();
    let labels = generate_labels(5, &alpha);
    assert_eq!(labels, vec!["a", "s", "d", "f", "g"]);
}

#[test]
fn no_prefix_conflict_at_alphabet_boundary() {
    let alpha = default_alphabet_chars();
    let labels = generate_labels(alpha.len() + 1, &alpha);
    assert_eq!(labels.len(), alpha.len() + 1);
    assert!(no_prefix_conflicts(&labels));
}

#[test]
fn no_prefix_conflict_with_many_targets() {
    let alpha = default_alphabet_chars();
    let labels = generate_labels(60, &alpha);
    assert_eq!(labels.len(), 60);
    assert!(no_prefix_conflicts(&labels));
    let has_e = labels.iter().any(|l| l == "e");
    let has_e_prefix_double = labels.iter().any(|l| l.len() > 1 && l.starts_with('e'));
    assert!(!(has_e && has_e_prefix_double));
}

#[test]
fn all_letters_when_count_equals_alphabet() {
    let alpha = default_alphabet_chars();
    let labels = generate_labels(15, &alpha);
    let expected: Vec<String> = DEFAULT_ALPHABET.chars().map(|c| c.to_string()).collect();
    assert_eq!(labels, expected);
}

#[test]
fn two_letter_labels_past_the_alphabet() {
    let alpha: Vec<char> = "abc".chars().collect();
    assert_eq!(
        generate_labels(4, &alpha),
        vec!["aa", "ab", "ac", "ba"]
    );
    assert_eq!(
        generate_labels(9, &alpha),
        vec!["aa", "ab", "ac", "ba", "bb", "bc", "ca", "cb", "cc"]
    );
}

#[test]
fn nothing_to_label() {
    let alpha = default_alphabet_chars();
    assert!(generate_labels(0, &alpha).is_empty());
    assert!(generate_labels(3, &[]).is_empty());
}

#[test]
fn multi_byte_letters_are_never_extended() {
    let alpha = vec!['a', 'é', 'b'];
    assert!(can_generate_labels(5, &alpha));
    assert_eq!(generate_labels(5, &alpha), vec!["é", "aa", "aé", "ab", "ba"]);
    let alpha = vec!['é', 'a', 'b'];
    assert!(can_generate_labels(3, &alpha));
    assert!(!can_generate_labels(4, &alpha));
}

#[test]
fn capacity_is_the_square_of_the_alphabet() {
    let alpha = default_alphabet_chars();
    assert!(can_generate_labels(225, &alpha));
    assert!(!can_generate_labels(226, &alpha));
    assert_eq!(generate_labels(225, &alpha).len(), 225);
    let eight: Vec<char> = "asdfghjk".chars().collect();
    assert!(can_generate_labels(64, &eight));
    assert!(!can_generate_labels(65, &eight));
    assert!(can_generate_labels(10, &[]));
}

#[test]
fn hints_pair_elements_with_labels() {
    let alpha = default_alphabet_chars();
    let elements: Vec<ScannedElement> = (0..3).map(element).collect();
    let targets = assign_hints(elements, &alpha);
    assert_eq!(targets.len(), 3);
    assert_eq!(targets[0].label, "q");
    assert_eq!(targets[2].label, "e");
    assert_eq!(targets[2].element.element, 2);
    assert_eq!(targets[1].element.name, "e1");
    assert!(assign_hints(Vec::new(), &alpha).is_empty());
}
