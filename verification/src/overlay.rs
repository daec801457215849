//! What the overlay draws: a badge per hint that still matches the typed prefix.
use vstd::prelude::*;
use crate::geometry::ScreenRect;
use crate::labels::HintTarget;
use crate::matcher::matching;
use crate::text::{is_prefix, str_starts_with};

verus! {

/// Space between a badge's edge and its text.
pub const BADGE_PAD: i32 = 4;

/// A badge to draw: the label at the top-left corner of its control.
#[derive(Debug)]
pub struct RenderBadge {
    pub x: i32,
    pub y: i32,
    pub label: String,
}

/// Where a badge and its text go in the overlay window.
#[derive(Debug, Clone, Copy, PartialEq, Eq, Structural)]
pub struct BadgeLayout {
    pub rect: ScreenRect,
    pub text_x: i32,
    pub text_y: i32,
}

/// The badges for the targets whose label starts with `prefix` (all of them when
/// nothing is typed), in order.
pub fn visible_badges(targets: &[HintTarget], prefix: &str) -> (r: Vec<RenderBadge>)
    ensures
        r@.len() == matching(targets@, prefix@).len(),
        forall|i: int|
            0 <= i < r@.len() ==> {
                let t = #[trigger] matching(targets@, prefix@)[i];
                &&& r@[i].x == t.element.rect.left
                &&& r@[i].y == t.element.rect.top
                &&& r@[i].label@ == t.label@
            },
{
    let ghost pred = |t: HintTarget| is_prefix(prefix@, t.label@);
    let mut out: Vec<RenderBadge> = Vec::new();
    let mut i: usize = 0;
    while i < targets.len()
        invariant
            i <= targets@.len(),
            pred == (|t: HintTarget| is_prefix(prefix@, t.label@)),
            out@.len() == targets@.take(i as int).filter(pred).len(),
            forall|j: int|
                0 <= j < out@.len() ==> {
                    let t = #[trigger] targets@.take(i as int).filter(pred)[j];
                    &&& out@[j].x == t.element.rect.left
                    &&& out@[j].y == t.element.rect.top
                    &&& out@[j].label@ == t.label@
                },
        decreases targets.len() - i,
    {
        proof {
            reveal(Seq::filter);
            assert(targets@.take(i + 1).drop_last() =~= targets@.take(i as int));
            assert(targets@.take(i + 1).last() == targets@[i as int]);
        }
        let t = &targets[i];
        let shown = prefix.unicode_len() == 0 || str_starts_with(t.label.as_str(), prefix);
        proof {
            if prefix@.len() == 0 {
                assert(t.label@.subrange(0, 0) =~= prefix@);
            }
        }
        if shown {
            out.push(
                RenderBadge { x: t.element.rect.left, y: t.element.rect.top, label: t.label.clone() },
            );
        }
        i = i + 1;
    }
    assert(targets@.take(targets@.len() as int) =~= targets@);
    out
}

/// The arithmetic of placing a badge stays within `i32`.
pub open spec fn layout_fits(badge: RenderBadge, origin_x: i32, origin_y: i32, text_w: i32, text_h: i32) -> bool {
    let x = badge.x - origin_x;
    let y = badge.y - origin_y;
    &&& i32::MIN <= x <= i32::MAX
    &&& i32::MIN <= y <= i32::MAX
    &&& i32::MIN <= x + text_w <= i32::MAX
    &&& i32::MIN <= y + text_h <= i32::MAX
    &&& i32::MIN <= x + text_w + 2 * BADGE_PAD <= i32::MAX
    &&& i32::MIN <= y + text_h + 2 * BADGE_PAD <= i32::MAX
    &&& x + BADGE_PAD <= i32::MAX
    &&& y + BADGE_PAD <= i32::MAX
}

/// Places a badge whose text measures `text_w` by `text_h`, relative to the overlay
/// window's origin: the padded box starts at the control's corner, the text inside
/// it after the padding. `None` when a coordinate would leave the `i32` range.
pub fn badge_layout(
    badge: &RenderBadge,
    origin_x: i32,
    origin_y: i32,
    text_w: i32,
    text_h: i32,
) -> (r: Option<BadgeLayout>)
    ensures
        r is Some <==> layout_fits(*badge, origin_x, origin_y, text_w, text_h),
        r matches Some(l) ==> {
            &&& l.rect.left == badge.x - origin_x
            &&& l.rect.top == badge.y - origin_y
            &&& l.rect.right == badge.x - origin_x + text_w + 2 * BADGE_PAD
            &&& l.rect.bottom == badge.y - origin_y + text_h + 2 * BADGE_PAD
            &&& l.text_x == badge.x - origin_x + BADGE_PAD
            &&& l.text_y == badge.y - origin_y + BADGE_PAD
        },
{
    let x = badge.x as i64 - origin_x as i64;
    let y = badge.y as i64 - origin_y as i64;
    let lo = i32::MIN as i64;
    let hi = i32::MAX as i64;
    let pad = BADGE_PAD as i64;
    if !(lo <= x && x <= hi && lo <= y && y <= hi && lo <= x + text_w as i64 && x + text_w as i64
        <= hi && lo <= y + text_h as i64 && y + text_h as i64 <= hi && lo <= x + text_w as i64
        + 2 * pad && x + text_w as i64 + 2 * pad <= hi && lo <= y + text_h as i64 + 2 * pad && y
        + text_h as i64 + 2 * pad <= hi && x + pad <= hi && y + pad <= hi) {
        return None;
    }
    let x = badge.x - origin_x;
    let y = badge.y - origin_y;
    Some(
        BadgeLayout {
            rect: ScreenRect {
                left: x,
                top: y,
                right: x + text_w + BADGE_PAD * 2,
                bottom: y + text_h + BADGE_PAD * 2,
            },
            text_x: x + BADGE_PAD,
            text_y: y + BADGE_PAD,
        },
    )
}

} // verus!
