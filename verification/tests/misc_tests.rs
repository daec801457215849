use keynav::autostart::{run_entry_value, run_value_units};
use keynav::geometry::{ScannedElement, ScreenRect};
use keynav::labels::HintTarget;
use keynav::overlay::{badge_layout, visible_badges, RenderBadge};
use keynav::text::char_string;
use keynav::tray::fallback_icon_rgba;

fn target(label: &str, left: i32, top: i32) -> HintTarget {
    HintTarget {
        element: ScannedElement {
            name: String::new(),
            control_type: 0,
            rect: ScreenRect { left, top, right: left + 10, bottom: top + 10 },
            element: 0,
            target_hwnd: 0,
        },
        label: label.to_string(),
    }
}

#[test]
fn badges_follow_the_prefix() {
    let ts = vec![target("aa", 1, 2), target("ab", 3, 4), target("ba", 5, 6)];
    let all = visible_badges(&ts, "");
    assert_eq!(all.len(), 3);
    let a = visible_badges(&ts, "a");
    assert_eq!(a.len(), 2);
    assert_eq!((a[1].x, a[1].y, a[1].label.as_str()), (3, 4, "ab"));
    assert!(visible_badges(&ts, "c").is_empty());
}

#[test]
fn badge_is_padded_around_its_text() {
    let b = RenderBadge { x: 100, y: 50, label: "qw".to_string() };
    let l = badge_layout(&b, -20, 10, 16, 12).unwrap();
    assert_eq!((l.rect.left, l.rect.top, l.rect.right, l.rect.bottom), (120, 40, 144, 60));
    assert_eq!((l.text_x, l.text_y), (124, 44));
    assert!(badge_layout(&b, i32::MIN, 0, 1, 1).is_none());
    let edge = RenderBadge { x: i32::MAX - 20, y: 0, label: String::new() };
    assert!(badge_layout(&edge, 0, 0, 12, 1).is_some());
    assert!(badge_layout(&edge, 0, 0, 13, 1).is_none());
}

#[test]
fn run_entry_is_quoted() {
    assert_eq!(run_entry_value("C:\\Apps\\keynav.exe"), "\"C:\\Apps\\keynav.exe\"");
}

#[test]
fn stored_value_ends_at_nul_or_size() {
    let mut buf = [0u16; 8];
    for (i, c) in "abc".encode_utf16().enumerate() {
        buf[i] = c;
    }
    assert_eq!(run_value_units(&buf, 16), Some(vec![97, 98, 99]));
    assert_eq!(run_value_units(&buf, 4), Some(vec![97, 98]));
    let short = [1u16, 0, 3];
    assert_eq!(run_value_units(&short, 100), Some(vec![1]));
    assert_eq!(run_value_units(&short, 6), Some(vec![1]));
    assert_eq!(run_value_units(&short, 0), Some(Vec::<u16>::new()));
    assert_eq!(run_value_units(&[1u16, 2], 100), None);
}

#[test]
fn fallback_icon_is_orange() {
    let px = fallback_icon_rgba();
    assert_eq!(px.len(), 16 * 16 * 4);
    assert!(px.chunks(4).all(|p| p == [0xFF, 0x66, 0x00, 0xFF]));
}

#[test]
fn one_char_string() {
    assert_eq!(char_string('é'), "é");
}
