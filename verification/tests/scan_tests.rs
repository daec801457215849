use keynav::geometry::{
    deduplicate, finalize_scan, rect_on_screen, sort_by_position, ScannedElement, ScreenRect,
};

fn el(id: usize, left: i32, top: i32, right: i32, bottom: i32) -> ScannedElement {
    ScannedElement {
        name: String::new(),
        control_type: 0,
        rect: ScreenRect { left, top, right, bottom },
        element: id,
        target_hwnd: 0,
    }
}

fn ids(v: &[ScannedElement]) -> Vec<usize> {
    v.iter().map(|e| e.element).collect()
}

#[test]
fn rect_measures() {
    let r = ScreenRect { left: -3, top: 2, right: 4, bottom: 12 };
    assert_eq!(r.width(), 7);
    assert_eq!(r.height(), 10);
    assert_eq!(r.area(), 70);
    // Halves round toward zero.
    assert_eq!(r.center(), (0, 7));
    let n = ScreenRect { left: -5, top: -5, right: 0, bottom: 0 };
    assert_eq!(n.center(), (-2, -2));
    let big = ScreenRect { left: i32::MIN, top: 0, right: -1, bottom: i32::MAX };
    assert_eq!(big.area(), (i32::MAX as i64) * (i32::MAX as i64));
    assert!(big.is_measurable());
    assert!(!ScreenRect { left: i32::MIN, top: 0, right: 0, bottom: 1 }.is_measurable());
}

#[test]
fn rect_contains_and_filters() {
    let outer = ScreenRect { left: 0, top: 0, right: 10, bottom: 10 };
    let inner = ScreenRect { left: 2, top: 2, right: 8, bottom: 8 };
    assert!(outer.contains(&inner));
    assert!(outer.contains(&outer));
    assert!(!inner.contains(&outer));
    assert!(outer.is_hint_sized());
    assert!(!ScreenRect { left: 0, top: 0, right: 2, bottom: 100 }.is_hint_sized());
    assert!(!ScreenRect { left: 0, top: 0, right: 5, bottom: 7 }.is_hint_sized());
    assert!(ScreenRect { left: 0, top: 0, right: 6, bottom: 6 }.is_hint_sized());
    assert!(ScreenRect { left: 5, top: 0, right: 5, bottom: 6 }.is_empty());
    assert!(!outer.is_empty());
    assert!(rect_on_screen(&outer));
    assert!(!rect_on_screen(&ScreenRect { left: -20, top: 0, right: -10, bottom: 10 }));
}

#[test]
fn nested_controls_keep_the_innermost() {
    let mut v = vec![
        el(0, 0, 0, 100, 100),
        el(1, 10, 10, 50, 50),
        el(2, 20, 20, 30, 30),
        el(3, 60, 60, 70, 70),
        el(4, 200, 0, 210, 10),
        el(5, 200, 0, 210, 10),
    ];
    deduplicate(&mut v);
    assert_eq!(ids(&v), vec![2, 3, 4, 5]);
}

#[test]
fn reading_order_is_stable() {
    let v = vec![
        el(0, 50, 10, 60, 20),
        el(1, 0, 10, 10, 20),
        el(2, 0, 0, 10, 5),
        el(3, 0, 10, 10, 20),
    ];
    assert_eq!(ids(&sort_by_position(v)), vec![2, 1, 3, 0]);
}

#[test]
fn finalize_dedups_sorts_and_caps() {
    let v = vec![
        el(0, 0, 50, 100, 100),
        el(1, 10, 60, 20, 70),
        el(2, 0, 0, 10, 10),
        el(3, 30, 0, 40, 10),
    ];
    assert_eq!(ids(&finalize_scan(v, 2)), vec![2, 3]);
    let w = vec![el(0, 0, 5, 10, 10), el(1, 0, 0, 10, 5)];
    assert_eq!(ids(&finalize_scan(w, 10)), vec![1, 0]);
}
