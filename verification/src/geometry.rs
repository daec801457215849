//! Screen rectangles of the scanned controls, and the clean-up of a scan: nested
//! duplicates are dropped, the rest ordered top to bottom, left to right.
use vstd::prelude::*;

verus! {

pub const MIN_AREA: i64 = 36;

pub const MIN_DIMENSION: i32 = 3;

/// A rectangle in screen coordinates (right and bottom exclusive).
#[derive(Debug, Clone, Copy, PartialEq, Eq, Structural)]
pub struct ScreenRect {
    pub left: i32,
    pub top: i32,
    pub right: i32,
    pub bottom: i32,
}

/// `n / 2` rounded toward zero, as integer division does.
pub open spec fn half_toward_zero(n: int) -> int {
    if n >= 0 {
        n / 2
    } else {
        -((-n) / 2)
    }
}

impl ScreenRect {
    pub open spec fn spec_width(&self) -> int {
        self.right - self.left
    }

    pub open spec fn spec_height(&self) -> int {
        self.bottom - self.top
    }

    /// Width and height fit in an `i32`.
    pub open spec fn measurable(&self) -> bool {
        i32::MIN <= self.spec_width() <= i32::MAX && i32::MIN <= self.spec_height() <= i32::MAX
    }

    pub open spec fn spec_area(&self) -> int {
        self.spec_width() * self.spec_height()
    }

    /// `other` lies inside `self` (edges may touch).
    pub open spec fn spec_contains(&self, other: ScreenRect) -> bool {
        self.left <= other.left && self.top <= other.top && self.right >= other.right
            && self.bottom >= other.bottom
    }

    pub fn width(&self) -> (r: i32)
        requires
            i32::MIN <= self.spec_width() <= i32::MAX,
        ensures
            r == self.spec_width(),
    {
        self.right - self.left
    }

    pub fn height(&self) -> (r: i32)
        requires
            i32::MIN <= self.spec_height() <= i32::MAX,
        ensures
            r == self.spec_height(),
    {
        self.bottom - self.top
    }

    pub fn area(&self) -> (r: i64)
        requires
            self.measurable(),
        ensures
            r == self.spec_area(),
    {
        let w = self.width() as i64;
        let h = self.height() as i64;
        assert(-0x4000_0000_0000_0000 <= w * h <= 0x4000_0000_0000_0000) by (nonlinear_arith)
            requires
                -0x8000_0000 <= w <= 0x7fff_ffff,
                -0x8000_0000 <= h <= 0x7fff_ffff,
        ;
        w * h
    }

    /// The midpoint, each coordinate rounded toward zero.
    pub fn center(&self) -> (r: (i32, i32))
        requires
            i32::MIN <= self.left + self.right <= i32::MAX,
            i32::MIN <= self.top + self.bottom <= i32::MAX,
        ensures
            r.0 == half_toward_zero(self.left + self.right),
            r.1 == half_toward_zero(self.top + self.bottom),
    {
        ((self.left + self.right) / 2, (self.top + self.bottom) / 2)
    }

    /// Width and height can be computed without overflow.
    pub fn is_measurable(&self) -> (r: bool)
        ensures
            r == self.measurable(),
    {
        let w = self.right as i64 - self.left as i64;
        let h = self.bottom as i64 - self.top as i64;
        -0x8000_0000 <= w && w <= 0x7fff_ffff && -0x8000_0000 <= h && h <= 0x7fff_ffff
    }

    /// Large enough to carry a hint: at least 3 by 3, and at least 36 in area.
    pub fn is_hint_sized(&self) -> (r: bool)
        requires
            self.measurable(),
        ensures
            r == (self.spec_width() >= MIN_DIMENSION && self.spec_height() >= MIN_DIMENSION
                && self.spec_area() >= MIN_AREA),
    {
        !(self.width() < MIN_DIMENSION || self.height() < MIN_DIMENSION || self.area() < MIN_AREA)
    }

    /// No width or no height: the automation element gave no usable bounds.
    pub fn is_empty(&self) -> (r: bool)
        requires
            self.measurable(),
        ensures
            r == (self.spec_width() <= 0 || self.spec_height() <= 0),
    {
        self.width() <= 0 || self.height() <= 0
    }

    pub fn contains(&self, other: &ScreenRect) -> (r: bool)
        ensures
            r == self.spec_contains(*other),
    {
        self.left <= other.left && self.top <= other.top && self.right >= other.right
            && self.bottom >= other.bottom
    }
}

/// The rectangle has some extent and reaches into the screen's positive quadrant.
pub fn rect_on_screen(rect: &ScreenRect) -> (r: bool)
    requires
        rect.measurable(),
    ensures
        r == (rect.spec_width() > 0 && rect.spec_height() > 0 && rect.right > 0 && rect.bottom > 0),
{
    rect.width() > 0 && rect.height() > 0 && rect.right > 0 && rect.bottom > 0
}

/// A control found in the foreground window.
#[derive(Debug)]
pub struct ScannedElement {
    pub name: String,
    pub control_type: i32,
    pub rect: ScreenRect,
    /// Which automation element of the scan this is (an index into the scan's list).
    pub element: usize,
    /// The window the control belongs to, as a raw handle value.
    pub target_hwnd: isize,
}

impl Clone for ScannedElement {
    fn clone(&self) -> (r: Self)
        ensures
            r == *self,
    {
        ScannedElement {
            name: self.name.clone(),
            control_type: self.control_type,
            rect: self.rect,
            element: self.element,
            target_hwnd: self.target_hwnd,
        }
    }
}

/// `inner` lies inside `outer` and covers less area.
pub open spec fn strictly_inside(inner: ScreenRect, outer: ScreenRect) -> bool {
    outer.spec_contains(inner) && inner.spec_area() < outer.spec_area()
}

/// Some control of `s` lies strictly inside `e`.
pub open spec fn encloses_another(s: Seq<ScannedElement>, e: ScannedElement) -> bool {
    exists|j: int| 0 <= j < s.len() && strictly_inside(#[trigger] s[j].rect, e.rect)
}

/// The controls of `s` with no other control of `s` strictly inside them, in order:
/// of nested controls only the innermost are kept.
pub open spec fn innermost(s: Seq<ScannedElement>) -> Seq<ScannedElement> {
    s.filter(|e: ScannedElement| !encloses_another(s, e))
}

/// Every rectangle's width and height fit in an `i32`.
pub open spec fn all_measurable(s: Seq<ScannedElement>) -> bool {
    forall|i: int| 0 <= i < s.len() ==> (#[trigger] s[i]).rect.measurable()
}

proof fn lemma_area_bounds(r: ScreenRect)
    requires
        r.measurable(),
    ensures
        -0x4000_0000_0000_0000 <= r.spec_area() <= 0x4000_0000_0000_0000,
{
    let w = r.spec_width();
    let h = r.spec_height();
    assert(-0x4000_0000_0000_0000 <= w * h <= 0x4000_0000_0000_0000) by (nonlinear_arith)
        requires
            -0x8000_0000 <= w <= 0x7fff_ffff,
            -0x8000_0000 <= h <= 0x7fff_ffff,
    ;
}

/// Below a control with another one strictly inside it, there is one with none
/// strictly inside it.
proof fn lemma_innermost_witness(s: Seq<ScannedElement>, x: int, y: int)
    requires
        all_measurable(s),
        0 <= x < s.len(),
        0 <= y < s.len(),
        strictly_inside(s[y].rect, s[x].rect),
    ensures
        exists|m: int|
            0 <= m < s.len() && strictly_inside(#[trigger] s[m].rect, s[x].rect) && !encloses_another(
                s,
                s[m],
            ),
    decreases s[y].rect.spec_area() + 0x4000_0000_0000_0000,
{
    lemma_area_bounds(s[y].rect);
    if encloses_another(s, s[y]) {
        let z = choose|z: int| 0 <= z < s.len() && strictly_inside(#[trigger] s[z].rect, s[y].rect);
        lemma_area_bounds(s[z].rect);
        lemma_innermost_witness(s, x, z);
    } else {
        assert(strictly_inside(s[y].rect, s[x].rect) && !encloses_another(s, s[y]));
    }
}

/// Drops every control that has another control strictly inside it.
pub fn deduplicate(elements: &mut Vec<ScannedElement>)
    requires
        all_measurable(old(elements)@),
    ensures
        final(elements)@ == innermost(old(elements)@),
{
    let ghost s = elements@;
    let n = elements.len();
    let mut keep: Vec<bool> = Vec::new();
    let mut t: usize = 0;
    while t < n
        invariant
            t <= n,
            keep@.len() == t,
            forall|x: int| 0 <= x < t ==> keep@[x],
        decreases n - t,
    {
        keep.push(true);
        t = t + 1;
    }
    let mut i: usize = 0;
    while i < n
        invariant
            s == elements@,
            n == s.len(),
            all_measurable(s),
            keep@.len() == n,
            i <= n,
            forall|x: int| 0 <= x < n && !keep@[x] ==> encloses_another(s, #[trigger] s[x]),
            forall|a: int, b: int|
                0 <= a < i && 0 <= b < n && a != b ==> !(keep@[a] && keep@[b] && (strictly_inside(
                    #[trigger] s[b].rect,
                    #[trigger] s[a].rect,
                ) || strictly_inside(s[a].rect, s[b].rect))),
        decreases n - i,
    {
        let mut j: usize = 0;
        while j < n
            invariant
                s == elements@,
                n == s.len(),
                all_measurable(s),
                keep@.len() == n,
                i < n,
                j <= n,
                forall|x: int| 0 <= x < n && !keep@[x] ==> encloses_another(s, #[trigger] s[x]),
                forall|a: int, b: int|
                    ((0 <= a < i && 0 <= b < n) || (a == i && 0 <= b < j)) && a != b ==> !(keep@[a]
                        && keep@[b] && (strictly_inside(#[trigger] s[b].rect, #[trigger] s[a].rect)
                        || strictly_inside(s[a].rect, s[b].rect))),
            decreases n - j,
        {
            if i == j || !keep[i] || !keep[j] {
                j = j + 1;
                continue;
            }
            assert(s[i as int].rect.measurable() && s[j as int].rect.measurable());
            if elements[i].rect.contains(&elements[j].rect) && elements[j].rect.area()
                < elements[i].rect.area() {
                keep.set(i, false);
                assert(strictly_inside(s[j as int].rect, s[i as int].rect));
                assert(encloses_another(s, s[i as int]));
            } else if elements[j].rect.contains(&elements[i].rect) && elements[i].rect.area()
                < elements[j].rect.area() {
                keep.set(j, false);
                assert(strictly_inside(s[i as int].rect, s[j as int].rect));
                assert(encloses_another(s, s[j as int]));
            }
            j = j + 1;
        }
        i = i + 1;
    }
    let ghost pred = |e: ScannedElement| !encloses_another(s, e);
    proof {
        assert forall|x: int| 0 <= x < n implies keep@[x] == pred(#[trigger] s[x]) by {
            if encloses_another(s, s[x]) {
                let y = choose|y: int| 0 <= y < s.len() && strictly_inside(#[trigger] s[y].rect, s[x].rect);
                lemma_innermost_witness(s, x, y);
                let m = choose|m: int|
                    0 <= m < s.len() && strictly_inside(#[trigger] s[m].rect, s[x].rect)
                        && !encloses_another(s, s[m]);
                assert(keep@[m]);
                assert(m != x);
            }
        }
    }
    let mut out: Vec<ScannedElement> = Vec::new();
    let mut k: usize = 0;
    while k < n
        invariant
            s == elements@,
            n == s.len(),
            keep@.len() == n,
            k <= n,
            pred == (|e: ScannedElement| !encloses_another(s, e)),
            forall|x: int| 0 <= x < n ==> keep@[x] == pred(#[trigger] s[x]),
            out@ == s.take(k as int).filter(pred),
        decreases n - k,
    {
        proof {
            reveal(Seq::filter);
            assert(s.take(k + 1).drop_last() =~= s.take(k as int));
            assert(s.take(k + 1).last() == s[k as int]);
        }
        if keep[k] {
            out.push(elements[k].clone());
        }
        k = k + 1;
    }
    assert(s.take(n as int) =~= s);
    *elements = out;
}

/// `a` comes no later than `b` in reading order: by top edge, then by left edge.
pub open spec fn position_le(a: ScreenRect, b: ScreenRect) -> bool {
    a.top < b.top || (a.top == b.top && a.left <= b.left)
}

/// `e` inserted into the ordered `sorted` after every control that comes no later.
pub open spec fn insert_by_position(sorted: Seq<ScannedElement>, e: ScannedElement) -> Seq<
    ScannedElement,
>
    decreases sorted.len(),
{
    if sorted.len() == 0 {
        seq![e]
    } else if position_le(sorted.last().rect, e.rect) {
        sorted.push(e)
    } else {
        insert_by_position(sorted.drop_last(), e).push(sorted.last())
    }
}

/// `s` in reading order, controls in the same position keeping their order.
pub open spec fn by_position(s: Seq<ScannedElement>) -> Seq<ScannedElement>
    decreases s.len(),
{
    if s.len() == 0 {
        s
    } else {
        insert_by_position(by_position(s.drop_last()), s.last())
    }
}

/// `s` is in reading order.
pub open spec fn in_reading_order(s: Seq<ScannedElement>) -> bool {
    forall|i: int, j: int| 0 <= i < j < s.len() ==> position_le(#[trigger] s[i].rect, #[trigger] s[j].rect)
}

proof fn lemma_insert_split(sorted: Seq<ScannedElement>, e: ScannedElement, p: int)
    requires
        0 <= p <= sorted.len(),
        forall|x: int| p <= x < sorted.len() ==> !position_le(#[trigger] sorted[x].rect, e.rect),
        p == 0 || position_le(sorted[p - 1].rect, e.rect),
    ensures
        insert_by_position(sorted, e) == sorted.insert(p, e),
    decreases sorted.len(),
{
    if sorted.len() == 0 {
        assert(sorted.insert(p, e) =~= seq![e]);
    } else if p == sorted.len() {
        assert(sorted.insert(p, e) =~= sorted.push(e));
    } else {
        let d = sorted.drop_last();
        assert(!position_le(sorted[sorted.len() - 1].rect, e.rect));
        assert forall|x: int| p <= x < d.len() implies !position_le(#[trigger] d[x].rect, e.rect) by {
            assert(d[x] == sorted[x]);
        }
        if p > 0 {
            assert(d[p - 1] == sorted[p - 1]);
        }
        lemma_insert_split(d, e, p);
        assert(d.insert(p, e).push(sorted.last()) =~= sorted.insert(p, e));
    }
}

/// Orders the controls top to bottom, then left to right; the sort is stable.
pub fn sort_by_position(elements: Vec<ScannedElement>) -> (r: Vec<ScannedElement>)
    ensures
        r@ == by_position(elements@),
{
    let n = elements.len();
    let mut out: Vec<ScannedElement> = Vec::new();
    let mut i: usize = 0;
    assert(elements@.take(0) =~= Seq::<ScannedElement>::empty());
    while i < n
        invariant
            n == elements@.len(),
            i <= n,
            out@ == by_position(elements@.take(i as int)),
        decreases n - i,
    {
        let e = elements[i].clone();
        let mut p = out.len();
        while p > 0 && !(out[p - 1].rect.top < e.rect.top || (out[p - 1].rect.top == e.rect.top
            && out[p - 1].rect.left <= e.rect.left))
            invariant
                p <= out@.len(),
                forall|x: int| p <= x < out@.len() ==> !position_le(#[trigger] out@[x].rect, e.rect),
            decreases p,
        {
            p = p - 1;
        }
        proof {
            lemma_insert_split(out@, e, p as int);
            assert(elements@.take(i + 1).drop_last() =~= elements@.take(i as int));
            assert(elements@.take(i + 1).last() == e);
        }
        out.insert(p, e);
        i = i + 1;
    }
    assert(elements@.take(n as int) =~= elements@);
    out
}

/// Law: what `sort_by_position` returns is in reading order.
pub proof fn lemma_by_position_ordered(s: Seq<ScannedElement>)
    ensures
        in_reading_order(by_position(s)),
        by_position(s).len() == s.len(),
    decreases s.len(),
{
    if s.len() > 0 {
        lemma_by_position_ordered(s.drop_last());
        lemma_insert_ordered(by_position(s.drop_last()), s.last());
    }
}

proof fn lemma_insert_multiset(sorted: Seq<ScannedElement>, e: ScannedElement)
    ensures
        insert_by_position(sorted, e).to_multiset() == sorted.to_multiset().insert(e),
    decreases sorted.len(),
{
    broadcast use vstd::seq_lib::group_to_multiset_ensures;

    if sorted.len() > 0 && !position_le(sorted.last().rect, e.rect) {
        let d = sorted.drop_last();
        lemma_insert_multiset(d, e);
        assert(d.push(sorted.last()) =~= sorted);
        assert(insert_by_position(sorted, e).to_multiset() =~= sorted.to_multiset().insert(e));
    }
}

/// Law: sorting keeps exactly the controls it was given.
pub proof fn lemma_by_position_permutes(s: Seq<ScannedElement>)
    ensures
        by_position(s).to_multiset() == s.to_multiset(),
    decreases s.len(),
{
    broadcast use vstd::seq_lib::group_to_multiset_ensures;

    if s.len() > 0 {
        lemma_by_position_permutes(s.drop_last());
        lemma_insert_multiset(by_position(s.drop_last()), s.last());
        assert(s.drop_last().push(s.last()) =~= s);
    } else {
        assert(s.to_multiset() =~= vstd::multiset::Multiset::empty());
        assert(by_position(s).to_multiset() =~= vstd::multiset::Multiset::empty());
    }
}

proof fn lemma_insert_ordered(sorted: Seq<ScannedElement>, e: ScannedElement)
    requires
        in_reading_order(sorted),
    ensures
        in_reading_order(insert_by_position(sorted, e)),
        insert_by_position(sorted, e).len() == sorted.len() + 1,
        forall|x: ScannedElement| #[trigger] insert_by_position(sorted, e).contains(x) ==> x == e || sorted.contains(x),
    decreases sorted.len(),
{
    let r = insert_by_position(sorted, e);
    if sorted.len() == 0 {
    } else if position_le(sorted.last().rect, e.rect) {
        assert forall|x: ScannedElement| #[trigger] r.contains(x) implies x == e || sorted.contains(x) by {
            let i = choose|i: int| 0 <= i < r.len() && r[i] == x;
            if i < sorted.len() {
                assert(sorted[i] == x);
            }
        }
    } else {
        let d = sorted.drop_last();
        assert forall|i: int, j: int| 0 <= i < j < d.len() implies position_le(#[trigger] d[i].rect, #[trigger] d[j].rect) by {
            assert(d[i] == sorted[i] && d[j] == sorted[j]);
        }
        lemma_insert_ordered(d, e);
        let q = insert_by_position(d, e);
        let last = sorted.last();
        assert forall|i: int, j: int| 0 <= i < j < r.len() implies position_le(#[trigger] r[i].rect, #[trigger] r[j].rect) by {
            if j == r.len() - 1 {
                assert(r[j] == last);
                assert(q.contains(r[i]));
                if r[i] != e {
                    assert(d.contains(r[i]));
                    let w = choose|w: int| 0 <= w < d.len() && d[w] == r[i];
                    assert(sorted[w] == r[i]);
                    assert(position_le(sorted[w].rect, sorted[sorted.len() - 1].rect));
                }
            } else {
                assert(r[i] == q[i] && r[j] == q[j]);
            }
        }
        assert forall|x: ScannedElement| #[trigger] r.contains(x) implies x == e || sorted.contains(x) by {
            let i = choose|i: int| 0 <= i < r.len() && r[i] == x;
            if i == r.len() - 1 {
                assert(sorted[sorted.len() - 1] == x);
            } else {
                assert(q[i] == x);
                assert(q.contains(x));
                if x != e {
                    let w = choose|w: int| 0 <= w < d.len() && d[w] == x;
                    assert(sorted[w] == x);
                }
            }
        }
    }
}

/// What a scan keeps of its candidates: the innermost ones, in reading order, at
/// most `max_elements` of them.
pub open spec fn scan_result(candidates: Seq<ScannedElement>, max_elements: nat) -> Seq<
    ScannedElement,
> {
    let ordered = by_position(innermost(candidates));
    if ordered.len() > max_elements {
        ordered.take(max_elements as int)
    } else {
        ordered
    }
}

/// Law: a scan keeps at most `max_elements` controls, in reading order, none of them
/// with another control of the scan strictly inside it.
pub proof fn lemma_scan_result(candidates: Seq<ScannedElement>, max_elements: nat)
    ensures
        ({
            let r = scan_result(candidates, max_elements);
            &&& r.len() <= max_elements
            &&& in_reading_order(r)
            &&& forall|i: int, j: int|
                0 <= i < r.len() && 0 <= j < r.len() ==> !strictly_inside(
                    #[trigger] r[j].rect,
                    #[trigger] r[i].rect,
                )
        }),
{
    broadcast use vstd::seq_lib::group_to_multiset_ensures;

    let inner = innermost(candidates);
    let ordered = by_position(inner);
    let r = scan_result(candidates, max_elements);
    let pred = |e: ScannedElement| !encloses_another(candidates, e);
    lemma_by_position_ordered(inner);
    lemma_by_position_permutes(inner);
    assert forall|i: int| 0 <= i < r.len() implies (#[trigger] r[i] == ordered[i]) by {}
    assert forall|i: int, j: int| 0 <= i < j < r.len() implies position_le(
        #[trigger] r[i].rect,
        #[trigger] r[j].rect,
    ) by {
        assert(r[i] == ordered[i] && r[j] == ordered[j]);
    }
    assert forall|i: int, j: int|
        0 <= i < r.len() && 0 <= j < r.len() implies !strictly_inside(
        #[trigger] r[j].rect,
        #[trigger] r[i].rect,
    ) by {
        assert(r[i] == ordered[i] && r[j] == ordered[j]);
        assert(ordered.contains(ordered[i]) && ordered.contains(ordered[j]));
        assert(ordered.to_multiset().count(ordered[i]) > 0);
        assert(inner.contains(ordered[i]));
        assert(ordered.to_multiset().count(ordered[j]) > 0);
        assert(inner.contains(ordered[j]));
        candidates.lemma_filter_contains_rev(pred, ordered[i]);
        candidates.lemma_filter_contains_rev(pred, ordered[j]);
        let wi = choose|w: int| 0 <= w < inner.len() && inner[w] == ordered[i];
        candidates.lemma_filter_pred(pred, wi);
        let wj = choose|w: int| 0 <= w < candidates.len() && candidates[w] == ordered[j];
        if strictly_inside(r[j].rect, r[i].rect) {
            assert(strictly_inside(candidates[wj].rect, r[i].rect));
            assert(encloses_another(candidates, r[i]));
        }
    }
}

/// Cleans up the candidates of a scan: nested duplicates dropped, reading order, at
/// most `max_elements`.
pub fn finalize_scan(candidates: Vec<ScannedElement>, max_elements: usize) -> (r: Vec<
    ScannedElement,
>)
    requires
        all_measurable(candidates@),
    ensures
        r@ == scan_result(candidates@, max_elements as nat),
{
    let mut candidates = candidates;
    deduplicate(&mut candidates);
    let mut ordered = sort_by_position(candidates);
    ordered.truncate(max_elements);
    ordered
}


/// The point (`x`, `y`) lies in `r`, with `r`'s right and bottom edges excluded.
pub open spec fn point_in(r: ScreenRect, x: int, y: int) -> bool {
    r.left <= x < r.right && r.top <= y < r.bottom
}

/// Law: for a rectangle with some extent, `outer` contains it exactly when every point
/// of it is a point of `outer`; in particular it is not contained once any of its four
/// edges (the bottom one too) reaches beyond `outer`'s.
pub proof fn lemma_contains_points(outer: ScreenRect, inner: ScreenRect)
    requires
        inner.left < inner.right,
        inner.top < inner.bottom,
    ensures
        outer.spec_contains(inner) <==> (forall|x: int, y: int|
            point_in(inner, x, y) ==> #[trigger] point_in(outer, x, y)),
        inner.bottom > outer.bottom ==> !outer.spec_contains(inner),
        inner.right > outer.right ==> !outer.spec_contains(inner),
        inner.top < outer.top ==> !outer.spec_contains(inner),
        inner.left < outer.left ==> !outer.spec_contains(inner),
{
    if forall|x: int, y: int| point_in(inner, x, y) ==> #[trigger] point_in(outer, x, y) {
        assert(point_in(inner, inner.left as int, inner.top as int));
        assert(point_in(outer, inner.left as int, inner.top as int));
        assert(point_in(inner, inner.right - 1, inner.bottom - 1));
        assert(point_in(outer, inner.right - 1, inner.bottom - 1));
    }
}

/// Law: a control is kept by the clean-up of a scan (when no more than `max_elements`
/// controls come in) unless another control of the scan lies within its four edges:
/// left, top, right and bottom.
pub proof fn lemma_scan_keeps_unenclosing(
    candidates: Seq<ScannedElement>,
    max_elements: nat,
    i: int,
)
    requires
        0 <= i < candidates.len(),
        candidates.len() <= max_elements,
        forall|j: int|
            0 <= j < candidates.len() ==> !(candidates[i].rect.left <= (#[trigger] candidates[j]).rect.left
                && candidates[i].rect.top <= candidates[j].rect.top && candidates[j].rect.right
                <= candidates[i].rect.right && candidates[j].rect.bottom
                <= candidates[i].rect.bottom) || candidates[j].rect == candidates[i].rect,
    ensures
        innermost(candidates).contains(candidates[i]),
        scan_result(candidates, max_elements).contains(candidates[i]),
{
    broadcast use vstd::seq_lib::group_to_multiset_ensures;

    let e = candidates[i];
    let pred = |x: ScannedElement| !encloses_another(candidates, x);
    if encloses_another(candidates, e) {
        let j = choose|j: int| 0 <= j < candidates.len() && strictly_inside(#[trigger] candidates[j].rect, e.rect);
        assert(candidates[j].rect == e.rect);
    }
    candidates.lemma_filter_contains(pred, i);
    candidates.lemma_filter_len(pred);
    let inner = innermost(candidates);
    lemma_by_position_permutes(inner);
    let ordered = by_position(inner);
    assert(inner.to_multiset().count(e) > 0);
    assert(ordered.to_multiset().count(e) > 0);
    assert(ordered.contains(e));
    assert(inner.len() <= candidates.len());
    vstd::seq_lib::to_multiset_len(inner);
    vstd::seq_lib::to_multiset_len(ordered);
    assert(ordered.len() == inner.len());
}


} // verus!
