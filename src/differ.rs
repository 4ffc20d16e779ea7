//! Frame differencing: the bounding rectangle of the changes, and its greedy
//! splitting into rectangles that encode more cheaply apart.
use vstd::prelude::*;
use crate::frame::{
    Frame, Rect, MAX_PIXELS, same_size, changed, contains, rect_in, rect_within, covers_changes, no_changes,
    tight,
};
use crate::runs::{Run, encode_rect, is_rect_encoding, frames_ok, order_cost, runs_view, run_encoding, scan_sets, is_best_order};

verus! {

/// The bounding rectangle of the pixels of `start` that differ between the
/// frames: `None` when none does; otherwise the least rectangle holding them all.
pub fn bounding_rect(curr: &Frame, prev: &Frame, start: Rect) -> (r: Option<Rect>)
    requires
        curr.wf(),
        prev.wf(),
        same_size(*curr, *prev),
        rect_in(start, curr.spec_width(), curr.spec_height()),
    ensures
        r is None <==> no_changes(*curr, *prev, start),
        r matches Some(b) ==> rect_in(b, curr.spec_width(), curr.spec_height()) && rect_within(b, start)
            && covers_changes(*curr, *prev, start, b) && tight(*curr, *prev, b),
{
    proof {
        curr.lemma_wf();
    }
    let mut min_x: u32 = u32::MAX;
    let mut min_y: u32 = u32::MAX;
    let mut max_x: u32 = 0;
    let mut max_y: u32 = 0;
    // a changed pixel on each edge found so far
    let ghost mut left_y: int = 0;
    let ghost mut right_y: int = 0;
    let ghost mut top_x: int = 0;
    let ghost mut bottom_x: int = 0;
    let end_y = start.y + start.h;
    let end_x = start.x + start.w;
    let mut y: u32 = start.y;
    while y < end_y
        invariant
            curr.wf(),
            prev.wf(),
            same_size(*curr, *prev),
            rect_in(start, curr.spec_width(), curr.spec_height()),
            end_y == start.y + start.h,
            end_x == start.x + start.w,
            start.y <= y <= end_y,
            min_x <= max_x ==> start.x <= min_x && max_x < end_x && start.y <= min_y && max_y < y
                && min_y <= max_y
                && min_y <= left_y <= max_y && changed(*curr, *prev, min_x as int, left_y)
                && min_y <= right_y <= max_y && changed(*curr, *prev, max_x as int, right_y)
                && min_x <= top_x <= max_x && changed(*curr, *prev, top_x, min_y as int)
                && min_x <= bottom_x <= max_x && changed(*curr, *prev, bottom_x, max_y as int),
            min_x > max_x ==> min_x == u32::MAX && min_y == u32::MAX && max_x == 0 && max_y == 0,
            forall|px: int, py: int|
                contains(start, px, py) && py < y && changed(*curr, *prev, px, py) ==> min_x <= px <= max_x
                    && min_y <= py <= max_y,
        decreases end_y - y,
    {
        let mut x: u32 = start.x;
        while x < end_x
            invariant
                curr.wf(),
                prev.wf(),
                same_size(*curr, *prev),
                rect_in(start, curr.spec_width(), curr.spec_height()),
                end_y == start.y + start.h,
                end_x == start.x + start.w,
                start.y <= y < end_y,
                start.x <= x <= end_x,
                min_x <= max_x ==> start.x <= min_x && max_x < end_x && start.y <= min_y && max_y <= y
                    && min_y <= max_y
                    && min_y <= left_y <= max_y && changed(*curr, *prev, min_x as int, left_y)
                    && min_y <= right_y <= max_y && changed(*curr, *prev, max_x as int, right_y)
                    && min_x <= top_x <= max_x && changed(*curr, *prev, top_x, min_y as int)
                    && min_x <= bottom_x <= max_x && changed(*curr, *prev, bottom_x, max_y as int),
                min_x > max_x ==> min_x == u32::MAX && min_y == u32::MAX && max_x == 0 && max_y == 0,
                forall|px: int, py: int|
                    contains(start, px, py) && (py < y || (py == y && px < x)) && changed(*curr, *prev, px, py)
                        ==> min_x <= px <= max_x && min_y <= py <= max_y,
            decreases end_x - x,
        {
            if curr.get(x, y) != prev.get(x, y) {
                let first = min_x > max_x;
                if first {
                    min_x = x;
                    max_x = x;
                    min_y = y;
                    max_y = y;
                    proof {
                        left_y = y as int;
                        right_y = y as int;
                        top_x = x as int;
                        bottom_x = x as int;
                    }
                } else {
                    if x < min_x {
                        min_x = x;
                        proof {
                            left_y = y as int;
                        }
                    }
                    if y < min_y {
                        min_y = y;
                        proof {
                            top_x = x as int;
                        }
                    }
                    if x > max_x {
                        max_x = x;
                        proof {
                            right_y = y as int;
                        }
                    }
                    if y > max_y {
                        max_y = y;
                        proof {
                            bottom_x = x as int;
                        }
                    }
                }
            }
            x = x + 1;
        }
        y = y + 1;
    }
    if min_x > max_x {
        assert forall|px: int, py: int| contains(start, px, py) implies !changed(*curr, *prev, px, py) by {
            if changed(*curr, *prev, px, py) {
                assert(min_x <= px <= max_x);
            }
        }
        None
    } else {
        assert(contains(start, min_x as int, left_y));
        assert(!no_changes(*curr, *prev, start));
        let b = Rect { x: min_x, y: min_y, w: max_x - min_x + 1, h: max_y - min_y + 1 };
        assert(contains(b, b.x as int, left_y));
        assert(contains(b, b.x + b.w - 1, right_y));
        assert(contains(b, top_x, b.y as int));
        assert(contains(b, bottom_x, b.y + b.h - 1));
        assert(tight(*curr, *prev, b)) by {
            reveal(tight);
        }
        Some(b)
    }
}


/// An encoded rectangle: the rectangle, its scan order, its runs.
pub type EncodedRect = (Rect, usize, Vec<Run>);

/// The rectangles do not overlap.
pub open spec fn disjoint(a: Rect, b: Rect) -> bool {
    a.x + a.w <= b.x || b.x + b.w <= a.x || a.y + a.h <= b.y || b.y + b.h <= a.y
}

/// `a` and `b` split `e`: both are encodings of tight rectangles within it,
/// apart from each other, holding all its changed pixels, and their runs with
/// two more are fewer than those of `e`.
pub open spec fn is_improving_split(curr: Frame, prev: Frame, bpp: u32, e: EncodedRect, a: EncodedRect, b: EncodedRect) -> bool {
    &&& is_rect_encoding(curr, prev, bpp, a)
    &&& is_rect_encoding(curr, prev, bpp, b)
    &&& tight(curr, prev, a.0)
    &&& tight(curr, prev, b.0)
    &&& rect_within(a.0, e.0)
    &&& rect_within(b.0, e.0)
    &&& disjoint(a.0, b.0)
    &&& forall|x: int, y: int| contains(e.0, x, y) && changed(curr, prev, x, y) ==> contains(a.0, x, y) || contains(b.0, x, y)
    &&& a.2@.len() + b.2@.len() + 2 < e.2@.len()
}

/// No row of `rect` has changed pixels on both sides of the line left of column `x`.
pub open spec fn column_free(curr: Frame, prev: Frame, rect: Rect, x: int) -> bool {
    forall|y: int| rect.y <= y < rect.y + rect.h ==> !(changed(curr, prev, x - 1, y) && #[trigger] changed(curr, prev, x, y))
}

/// No column of `rect` has changed pixels on both sides of the line above row `y`.
pub open spec fn row_free(curr: Frame, prev: Frame, rect: Rect, y: int) -> bool {
    forall|x: int| rect.x <= x < rect.x + rect.w ==> !(changed(curr, prev, x, y - 1) && #[trigger] changed(curr, prev, x, y))
}


/// `b` is the bounding rectangle of the changes in `start`.
pub open spec fn is_bbox(curr: Frame, prev: Frame, start: Rect, b: Rect) -> bool {
    &&& rect_in(b, curr.spec_width(), curr.spec_height())
    &&& rect_within(b, start)
    &&& covers_changes(curr, prev, start, b)
    &&& tight(curr, prev, b)
}

/// The fewest runs that `rect` encodes in, over the four scan orders.
pub open spec fn best_cost(curr: Frame, prev: Frame, bpp: u32, rect: Rect) -> nat {
    let c0 = order_cost(curr, prev, bpp, rect, 0);
    let c1 = order_cost(curr, prev, bpp, rect, 1);
    let c2 = order_cost(curr, prev, bpp, rect, 2);
    let c3 = order_cost(curr, prev, bpp, rect, 3);
    let a = if c0 <= c1 { c0 } else { c1 };
    let b = if c2 <= c3 { c2 } else { c3 };
    if a <= b { a } else { b }
}

/// Encoding the changes of `first` and of `second` apart takes more than
/// two runs fewer than `e` does.
pub open spec fn improves(curr: Frame, prev: Frame, bpp: u32, e: EncodedRect, first: Rect, second: Rect) -> bool {
    exists|b1: Rect, b2: Rect|
        #[trigger] is_bbox(curr, prev, first, b1) && #[trigger] is_bbox(curr, prev, second, b2) && best_cost(curr, prev, bpp, b1)
            + best_cost(curr, prev, bpp, b2) + 2 < e.2@.len()
}

/// The part of `r` left of column `x`.
pub open spec fn left_of(r: Rect, x: int) -> Rect {
    Rect { x: r.x, y: r.y, w: (x - r.x) as u32, h: r.h }
}

/// The part of `r` from column `x` on.
pub open spec fn right_of(r: Rect, x: int) -> Rect {
    Rect { x: x as u32, y: r.y, w: (r.x + r.w - x) as u32, h: r.h }
}

/// The part of `r` above row `y`.
pub open spec fn above(r: Rect, y: int) -> Rect {
    Rect { x: r.x, y: r.y, w: r.w, h: (y - r.y) as u32 }
}

/// The part of `r` from row `y` on.
pub open spec fn below(r: Rect, y: int) -> Rect {
    Rect { x: r.x, y: y as u32, w: r.w, h: (r.y + r.h - y) as u32 }
}

/// Some line through `e`'s rectangle that no run would cross anyway splits
/// it into two parts that encode more cheaply apart.
pub open spec fn splittable(curr: Frame, prev: Frame, bpp: u32, e: EncodedRect) -> bool {
    let r = e.0;
    ||| exists|x: int| r.x < x < r.x + r.w && column_free(curr, prev, r, x) && #[trigger] improves(curr, prev, bpp, e, left_of(r, x), right_of(r, x))
    ||| exists|y: int| r.y < y < r.y + r.h && row_free(curr, prev, r, y) && #[trigger] improves(curr, prev, bpp, e, above(r, y), below(r, y))
}

/// The bounding rectangle of the changes in a region is the only one.
proof fn lemma_bbox_unique(curr: Frame, prev: Frame, start: Rect, b1: Rect, b2: Rect)
    requires
        is_bbox(curr, prev, start, b1),
        is_bbox(curr, prev, start, b2),
    ensures
        b1 == b2,
{
    reveal(tight);
    let y1 = choose|y: int| #[trigger] contains(b1, b1.x as int, y) && changed(curr, prev, b1.x as int, y);
    let y2 = choose|y: int| #[trigger] contains(b2, b2.x as int, y) && changed(curr, prev, b2.x as int, y);
    assert(contains(b2, b1.x as int, y1));
    assert(contains(b1, b2.x as int, y2));
    let y3 = choose|y: int| #[trigger] contains(b1, b1.x + b1.w - 1, y) && changed(curr, prev, b1.x + b1.w - 1, y);
    let y4 = choose|y: int| #[trigger] contains(b2, b2.x + b2.w - 1, y) && changed(curr, prev, b2.x + b2.w - 1, y);
    assert(contains(b2, b1.x + b1.w - 1, y3));
    assert(contains(b1, b2.x + b2.w - 1, y4));
    let x1 = choose|x: int| #[trigger] contains(b1, x, b1.y as int) && changed(curr, prev, x, b1.y as int);
    let x2 = choose|x: int| #[trigger] contains(b2, x, b2.y as int) && changed(curr, prev, x, b2.y as int);
    assert(contains(b2, x1, b1.y as int));
    assert(contains(b1, x2, b2.y as int));
    let x3 = choose|x: int| #[trigger] contains(b1, x, b1.y + b1.h - 1) && changed(curr, prev, x, b1.y + b1.h - 1);
    let x4 = choose|x: int| #[trigger] contains(b2, x, b2.y + b2.h - 1) && changed(curr, prev, x, b2.y + b2.h - 1);
    assert(contains(b2, x3, b1.y + b1.h - 1));
    assert(contains(b1, x4, b2.y + b2.h - 1));
}

/// A region without changes has no bounding rectangle.
proof fn lemma_no_bbox(curr: Frame, prev: Frame, start: Rect, b: Rect)
    requires
        no_changes(curr, prev, start),
        rect_within(b, start),
    ensures
        !tight(curr, prev, b),
{
    reveal(tight);
    if tight(curr, prev, b) {
        let y = choose|y: int| #[trigger] contains(b, b.x as int, y) && changed(curr, prev, b.x as int, y);
        assert(contains(start, b.x as int, y));
    }
}

proof fn lemma_best_cost(curr: Frame, prev: Frame, bpp: u32, e: EncodedRect)
    requires
        is_rect_encoding(curr, prev, bpp, e),
    ensures
        e.2@.len() == best_cost(curr, prev, bpp, e.0),
{
    reveal(is_rect_encoding);
    assert(crate::runs::runs_view(e.2@).len() == e.2@.len());
    assert(order_cost(curr, prev, bpp, e.0, e.1 as int) <= order_cost(curr, prev, bpp, e.0, 0));
    assert(order_cost(curr, prev, bpp, e.0, e.1 as int) <= order_cost(curr, prev, bpp, e.0, 1));
    assert(order_cost(curr, prev, bpp, e.0, e.1 as int) <= order_cost(curr, prev, bpp, e.0, 2));
    assert(order_cost(curr, prev, bpp, e.0, e.1 as int) <= order_cost(curr, prev, bpp, e.0, 3));
}


/// An encoded rectangle in spec terms: the rectangle, its scan order, its runs.
pub type RectView = (Rect, int, Seq<(nat, nat)>);

pub open spec fn view_of(e: EncodedRect) -> RectView {
    (e.0, e.1 as int, runs_view(e.2@))
}

pub open spec fn views(s: Seq<EncodedRect>) -> Seq<RectView> {
    s.map_values(|e: EncodedRect| view_of(e))
}

/// The first scan order with the fewest runs.
pub open spec fn first_best(curr: Frame, prev: Frame, bpp: u32, r: Rect) -> int {
    let c0 = order_cost(curr, prev, bpp, r, 0);
    let c1 = order_cost(curr, prev, bpp, r, 1);
    let c2 = order_cost(curr, prev, bpp, r, 2);
    let c3 = order_cost(curr, prev, bpp, r, 3);
    if c0 <= c1 && c0 <= c2 && c0 <= c3 {
        0
    } else if c1 <= c2 && c1 <= c3 {
        1
    } else if c2 <= c3 {
        2
    } else {
        3
    }
}

/// The encoding of `r`: its best scan order and the runs in it.
pub open spec fn enc_view(curr: Frame, prev: Frame, bpp: u32, r: Rect) -> RectView {
    let o = first_best(curr, prev, bpp, r);
    (r, o, run_encoding(scan_sets(curr, prev, bpp, r, o)))
}

/// The bounding rectangle of the changes in `start`.
pub open spec fn bbox_of(curr: Frame, prev: Frame, start: Rect) -> Rect {
    choose|b: Rect| is_bbox(curr, prev, start, b)
}

/// The encodings of the changes of `first` and of `second`, when both have
/// changes and their runs with two more are fewer than `cost`.
pub open spec fn parts_view(curr: Frame, prev: Frame, bpp: u32, cost: nat, first: Rect, second: Rect) -> Option<(RectView, RectView)> {
    if no_changes(curr, prev, first) || no_changes(curr, prev, second) {
        None
    } else {
        let a = enc_view(curr, prev, bpp, bbox_of(curr, prev, first));
        let b = enc_view(curr, prev, bpp, bbox_of(curr, prev, second));
        if a.2.len() + b.2.len() + 2 < cost {
            Some((a, b))
        } else {
            None
        }
    }
}

/// The first improving split of `e` along a vertical line from column `x` on.
pub open spec fn vsplit_from(curr: Frame, prev: Frame, bpp: u32, e: RectView, x: int) -> Option<(RectView, RectView)>
    decreases e.0.x + e.0.w - x,
{
    let r = e.0;
    if x >= r.x + r.w {
        None
    } else if column_free(curr, prev, r, x) && parts_view(curr, prev, bpp, e.2.len(), left_of(r, x), right_of(r, x)) is Some {
        parts_view(curr, prev, bpp, e.2.len(), left_of(r, x), right_of(r, x))
    } else {
        vsplit_from(curr, prev, bpp, e, x + 1)
    }
}

/// The first improving split of `e` along a horizontal line from row `y` on.
pub open spec fn hsplit_from(curr: Frame, prev: Frame, bpp: u32, e: RectView, y: int) -> Option<(RectView, RectView)>
    decreases e.0.y + e.0.h - y,
{
    let r = e.0;
    if y >= r.y + r.h {
        None
    } else if row_free(curr, prev, r, y) && parts_view(curr, prev, bpp, e.2.len(), above(r, y), below(r, y)) is Some {
        parts_view(curr, prev, bpp, e.2.len(), above(r, y), below(r, y))
    } else {
        hsplit_from(curr, prev, bpp, e, y + 1)
    }
}

/// The first improving split of `e`: vertical lines left to right, then horizontal ones top to bottom.
pub open spec fn split_view(curr: Frame, prev: Frame, bpp: u32, e: RectView) -> Option<(RectView, RectView)> {
    match vsplit_from(curr, prev, bpp, e, e.0.x + 1) {
        Some(p) => Some(p),
        None => hsplit_from(curr, prev, bpp, e, e.0.y + 1),
    }
}

/// The first entry from `i` on that an improving split divides, with its parts.
pub open spec fn find_view(curr: Frame, prev: Frame, bpp: u32, s: Seq<RectView>, i: int) -> Option<(int, RectView, RectView)>
    decreases s.len() - i,
{
    if i < 0 || i >= s.len() {
        None
    } else {
        match split_view(curr, prev, bpp, s[i]) {
            Some((a, b)) => Some((i, a, b)),
            None => find_view(curr, prev, bpp, s, i + 1),
        }
    }
}

/// Splitting greedily, at most `fuel` times: the first improving split of
/// the first entry that has one replaces the entry with its first part and
/// adds the second last; then the search starts over.
pub open spec fn greedy(curr: Frame, prev: Frame, bpp: u32, s: Seq<RectView>, fuel: nat) -> Seq<RectView>
    decreases fuel,
{
    if fuel == 0 {
        s
    } else {
        match find_view(curr, prev, bpp, s, 0) {
            None => s,
            Some((i, a, b)) => greedy(curr, prev, bpp, s.update(i, a).push(b), (fuel - 1) as nat),
        }
    }
}

/// The whole frame.
pub open spec fn whole_rect(curr: Frame) -> Rect {
    Rect { x: 0, y: 0, w: curr.spec_width() as u32, h: curr.spec_height() as u32 }
}

/// Where the splitting starts: nothing, or the bounding rectangle of all changes.
pub open spec fn initial_view(curr: Frame, prev: Frame, bpp: u32) -> Seq<RectView> {
    if no_changes(curr, prev, whole_rect(curr)) {
        seq![]
    } else {
        seq![enc_view(curr, prev, bpp, bbox_of(curr, prev, whole_rect(curr)))]
    }
}

/// The rectangles that first-improvement splitting ends with (before sorting).
pub open spec fn split_result(curr: Frame, prev: Frame, bpp: u32) -> Seq<RectView> {
    let init = initial_view(curr, prev, bpp);
    greedy(curr, prev, bpp, init, if init.len() == 0 { 1 } else { init[0].2.len() + 1 })
}

proof fn lemma_enc_view(curr: Frame, prev: Frame, bpp: u32, e: EncodedRect)
    requires
        is_rect_encoding(curr, prev, bpp, e),
    ensures
        view_of(e) == enc_view(curr, prev, bpp, e.0),
{
    reveal(is_rect_encoding);
    let r = e.0;
    assert(is_best_order(curr, prev, bpp, r, e.1 as int));
    let c0 = order_cost(curr, prev, bpp, r, 0);
    let c1 = order_cost(curr, prev, bpp, r, 1);
    let c2 = order_cost(curr, prev, bpp, r, 2);
    let c3 = order_cost(curr, prev, bpp, r, 3);
    let o = e.1 as int;
    assert(order_cost(curr, prev, bpp, r, o) <= c0 && order_cost(curr, prev, bpp, r, o) <= c1);
    assert(order_cost(curr, prev, bpp, r, o) <= c2 && order_cost(curr, prev, bpp, r, o) <= c3);
    if o > 0 {
        assert(order_cost(curr, prev, bpp, r, o) < c0);
    }
    if o > 1 {
        assert(order_cost(curr, prev, bpp, r, o) < c1);
    }
    if o > 2 {
        assert(order_cost(curr, prev, bpp, r, o) < c2);
    }
    assert(first_best(curr, prev, bpp, r) == o);
}

proof fn lemma_bbox_of(curr: Frame, prev: Frame, start: Rect, b: Rect)
    requires
        is_bbox(curr, prev, start, b),
    ensures
        bbox_of(curr, prev, start) == b,
{
    let c = bbox_of(curr, prev, start);
    assert(is_bbox(curr, prev, start, c));
    lemma_bbox_unique(curr, prev, start, c, b);
}

fn is_column_free(curr: &Frame, prev: &Frame, rect: Rect, x: u32) -> (r: bool)
    requires
        curr.wf(),
        prev.wf(),
        same_size(*curr, *prev),
        rect_in(rect, curr.spec_width(), curr.spec_height()),
        rect.x < x < rect.x + rect.w,
    ensures
        r == column_free(*curr, *prev, rect, x as int),
{
    proof {
        curr.lemma_wf();
    }
    let mut y = rect.y;
    while y < rect.y + rect.h
        invariant
            curr.wf(),
            prev.wf(),
            same_size(*curr, *prev),
            rect_in(rect, curr.spec_width(), curr.spec_height()),
            rect.x < x < rect.x + rect.w,
            rect.y + rect.h <= curr.spec_height() <= MAX_PIXELS,
            rect.y <= y <= rect.y + rect.h,
            forall|yy: int| rect.y <= yy < y ==> !(changed(*curr, *prev, x - 1, yy) && #[trigger] changed(*curr, *prev, x as int, yy)),
        decreases rect.y + rect.h - y,
    {
        let left = curr.get(x - 1, y) != prev.get(x - 1, y);
        let right = curr.get(x, y) != prev.get(x, y);
        if left && right {
            assert(changed(*curr, *prev, x - 1, y as int) && changed(*curr, *prev, x as int, y as int));
            return false;
        }
        y = y + 1;
    }
    true
}

fn is_row_free(curr: &Frame, prev: &Frame, rect: Rect, y: u32) -> (r: bool)
    requires
        curr.wf(),
        prev.wf(),
        same_size(*curr, *prev),
        rect_in(rect, curr.spec_width(), curr.spec_height()),
        rect.y < y < rect.y + rect.h,
    ensures
        r == row_free(*curr, *prev, rect, y as int),
{
    proof {
        curr.lemma_wf();
    }
    let mut x = rect.x;
    while x < rect.x + rect.w
        invariant
            curr.wf(),
            prev.wf(),
            same_size(*curr, *prev),
            rect_in(rect, curr.spec_width(), curr.spec_height()),
            rect.y < y < rect.y + rect.h,
            rect.x + rect.w <= curr.spec_width() <= MAX_PIXELS,
            rect.x <= x <= rect.x + rect.w,
            forall|xx: int| rect.x <= xx < x ==> !(changed(*curr, *prev, xx, y - 1) && #[trigger] changed(*curr, *prev, xx, y as int)),
        decreases rect.x + rect.w - x,
    {
        let up = curr.get(x, y - 1) != prev.get(x, y - 1);
        let down = curr.get(x, y) != prev.get(x, y);
        if up && down {
            assert(changed(*curr, *prev, x as int, y - 1) && changed(*curr, *prev, x as int, y as int));
            return false;
        }
        x = x + 1;
    }
    true
}

/// Encodes the changes of the two parts `first` and `second` of `e`'s rectangle
/// apart; `Some` when that takes more than two runs fewer.
fn try_parts(curr: &Frame, prev: &Frame, bpp: u32, e: &EncodedRect, first: Rect, second: Rect) -> (r: Option<(EncodedRect, EncodedRect)>)
    requires
        frames_ok(*curr, *prev, bpp),
        rect_in(e.0, curr.spec_width(), curr.spec_height()),
        rect_within(first, e.0),
        rect_within(second, e.0),
        rect_in(first, curr.spec_width(), curr.spec_height()),
        rect_in(second, curr.spec_width(), curr.spec_height()),
        disjoint(first, second),
        forall|x: int, y: int| contains(e.0, x, y) ==> contains(first, x, y) || contains(second, x, y),
    ensures
        r matches Some((a, b)) ==> is_improving_split(*curr, *prev, bpp, *e, a, b),
        r is None ==> !improves(*curr, *prev, bpp, *e, first, second),
        match parts_view(*curr, *prev, bpp, e.2@.len(), first, second) {
            Some((va, vb)) => r matches Some((a, b)) && view_of(a) == va && view_of(b) == vb,
            None => r is None,
        },
{
    let b1 = match bounding_rect(curr, prev, first) {
        Some(b) => b,
        None => {
            assert forall|c1: Rect, c2: Rect| #[trigger] is_bbox(*curr, *prev, first, c1) && #[trigger] is_bbox(*curr, *prev, second, c2)
                implies best_cost(*curr, *prev, bpp, c1) + best_cost(*curr, *prev, bpp, c2) + 2 >= e.2@.len() by {
                lemma_no_bbox(*curr, *prev, first, c1);
            }
            return None;
        },
    };
    let b2 = match bounding_rect(curr, prev, second) {
        Some(b) => b,
        None => {
            assert forall|c1: Rect, c2: Rect| #[trigger] is_bbox(*curr, *prev, first, c1) && #[trigger] is_bbox(*curr, *prev, second, c2)
                implies best_cost(*curr, *prev, bpp, c1) + best_cost(*curr, *prev, bpp, c2) + 2 >= e.2@.len() by {
                lemma_no_bbox(*curr, *prev, second, c2);
            }
            return None;
        },
    };
    let a = encode_rect(curr, prev, b1, bpp);
    let b = encode_rect(curr, prev, b2, bpp);
    proof {
        lemma_bbox_of(*curr, *prev, first, b1);
        lemma_bbox_of(*curr, *prev, second, b2);
        lemma_enc_view(*curr, *prev, bpp, a);
        lemma_enc_view(*curr, *prev, bpp, b);
        assert(runs_view(a.2@).len() == a.2@.len() && runs_view(b.2@).len() == b.2@.len());
    }
    let total = e.2.len();
    if a.2.len() < total && b.2.len() < total - a.2.len() && total - a.2.len() - b.2.len() > 2 {
        Some((a, b))
    } else {
        proof {
            lemma_best_cost(*curr, *prev, bpp, a);
            lemma_best_cost(*curr, *prev, bpp, b);
        }
        assert forall|c1: Rect, c2: Rect| #[trigger] is_bbox(*curr, *prev, first, c1) && #[trigger] is_bbox(*curr, *prev, second, c2)
            implies best_cost(*curr, *prev, bpp, c1) + best_cost(*curr, *prev, bpp, c2) + 2 >= e.2@.len() by {
            lemma_bbox_unique(*curr, *prev, first, c1, b1);
            lemma_bbox_unique(*curr, *prev, second, c2, b2);
        }
        None
    }
}

/// The first improving split of `e` along a vertical line, left to right,
/// then along a horizontal one, top to bottom.
fn try_split(curr: &Frame, prev: &Frame, bpp: u32, e: &EncodedRect) -> (r: Option<(EncodedRect, EncodedRect)>)
    requires
        frames_ok(*curr, *prev, bpp),
        is_rect_encoding(*curr, *prev, bpp, *e),
    ensures
        r matches Some((a, b)) ==> is_improving_split(*curr, *prev, bpp, *e, a, b),
        r is None ==> !splittable(*curr, *prev, bpp, *e),
        match split_view(*curr, *prev, bpp, view_of(*e)) {
            Some((va, vb)) => r matches Some((a, b)) && view_of(a) == va && view_of(b) == vb,
            None => r is None,
        },
{
    let ghost ev = view_of(*e);
    assert(ev.2.len() == e.2@.len());
    proof {
        curr.lemma_wf();
    }
    assert(rect_in(e.0, curr.spec_width(), curr.spec_height())) by {
        reveal(is_rect_encoding);
    }
    let rect = e.0;
    let mut x = rect.x + 1;
    while x < rect.x + rect.w
        invariant
            frames_ok(*curr, *prev, bpp),
            is_rect_encoding(*curr, *prev, bpp, *e),
            rect == e.0,
            rect_in(rect, curr.spec_width(), curr.spec_height()),
            rect.x + rect.w <= curr.spec_width() <= MAX_PIXELS,
            rect.y + rect.h <= curr.spec_height() <= MAX_PIXELS,
            rect.x < x <= rect.x + rect.w,
            forall|xx: int| rect.x < xx < x ==> !(column_free(*curr, *prev, rect, xx) && #[trigger] improves(*curr, *prev, bpp, *e, left_of(rect, xx), right_of(rect, xx))),
            ev == view_of(*e),
            ev.2.len() == e.2@.len(),
            vsplit_from(*curr, *prev, bpp, ev, rect.x + 1) == vsplit_from(*curr, *prev, bpp, ev, x as int),
        decreases rect.x + rect.w - x,
    {
        if is_column_free(curr, prev, rect, x) {
            let left = Rect { x: rect.x, y: rect.y, w: x - rect.x, h: rect.h };
            let right = Rect { x, y: rect.y, w: rect.w - (x - rect.x), h: rect.h };
            assert(left == left_of(rect, x as int) && right == right_of(rect, x as int));
            if let Some(parts) = try_parts(curr, prev, bpp, e, left, right) {
                return Some(parts);
            }
        }
        x = x + 1;
    }
    assert(vsplit_from(*curr, *prev, bpp, ev, x as int) is None);
    let mut y = rect.y + 1;
    while y < rect.y + rect.h
        invariant
            frames_ok(*curr, *prev, bpp),
            is_rect_encoding(*curr, *prev, bpp, *e),
            rect == e.0,
            rect_in(rect, curr.spec_width(), curr.spec_height()),
            rect.x + rect.w <= curr.spec_width() <= MAX_PIXELS,
            rect.y + rect.h <= curr.spec_height() <= MAX_PIXELS,
            rect.y < y <= rect.y + rect.h,
            forall|xx: int| rect.x < xx < rect.x + rect.w ==> !(column_free(*curr, *prev, rect, xx) && #[trigger] improves(*curr, *prev, bpp, *e, left_of(rect, xx), right_of(rect, xx))),
            forall|yy: int| rect.y < yy < y ==> !(row_free(*curr, *prev, rect, yy) && #[trigger] improves(*curr, *prev, bpp, *e, above(rect, yy), below(rect, yy))),
            ev == view_of(*e),
            ev.2.len() == e.2@.len(),
            vsplit_from(*curr, *prev, bpp, ev, rect.x + 1) is None,
            hsplit_from(*curr, *prev, bpp, ev, rect.y + 1) == hsplit_from(*curr, *prev, bpp, ev, y as int),
        decreases rect.y + rect.h - y,
    {
        if is_row_free(curr, prev, rect, y) {
            let top = Rect { x: rect.x, y: rect.y, w: rect.w, h: y - rect.y };
            let bottom = Rect { x: rect.x, y, w: rect.w, h: rect.h - (y - rect.y) };
            assert(top == above(rect, y as int) && bottom == below(rect, y as int));
            if let Some(parts) = try_parts(curr, prev, bpp, e, top, bottom) {
                return Some(parts);
            }
        }
        y = y + 1;
    }
    None
}

/// The total number of runs of the rectangles.
pub open spec fn total_runs(s: Seq<EncodedRect>) -> nat
    decreases s.len(),
{
    if s.len() == 0 {
        0
    } else {
        total_runs(s.drop_last()) + s.last().2@.len()
    }
}

proof fn lemma_total_runs_update(s: Seq<EncodedRect>, i: int, v: EncodedRect)
    requires
        0 <= i < s.len(),
    ensures
        total_runs(s.update(i, v)) + s[i].2@.len() == total_runs(s) + v.2@.len(),
    decreases s.len(),
{
    if i < s.len() - 1 {
        assert(s.update(i, v).drop_last() =~= s.drop_last().update(i, v));
        lemma_total_runs_update(s.drop_last(), i, v);
    } else {
        assert(s.update(i, v).drop_last() =~= s.drop_last());
    }
}

#[verifier::opaque]
/// The invariant of the splitting: every entry encodes a tight rectangle,
/// the rectangles do not overlap, and every changed pixel lies in one.
pub open spec fn valid_split_state(curr: Frame, prev: Frame, bpp: u32, s: Seq<EncodedRect>) -> bool {
    &&& forall|k: int| 0 <= k < s.len() ==> is_rect_encoding(curr, prev, bpp, #[trigger] s[k]) && tight(curr, prev, s[k].0)
    &&& forall|i: int, j: int| 0 <= i < s.len() && 0 <= j < s.len() && i != j ==> disjoint(#[trigger] s[i].0, #[trigger] s[j].0)
    &&& forall|x: int, y: int|
        0 <= x < curr.spec_width() && 0 <= y < curr.spec_height() && changed(curr, prev, x, y) ==> exists|k: int|
            0 <= k < s.len() && #[trigger] contains(s[k].0, x, y)
}

/// The first entry that an improving split divides, with its two parts.
fn find_split(curr: &Frame, prev: &Frame, bpp: u32, rects: &Vec<EncodedRect>) -> (r: Option<(usize, EncodedRect, EncodedRect)>)
    requires
        frames_ok(*curr, *prev, bpp),
        valid_split_state(*curr, *prev, bpp, rects@),
    ensures
        r matches Some((i, a, b)) ==> i < rects@.len() && is_improving_split(*curr, *prev, bpp, rects@[i as int], a, b),
        r is None ==> forall|k: int| 0 <= k < rects@.len() ==> !splittable(*curr, *prev, bpp, #[trigger] rects@[k]),
        match find_view(*curr, *prev, bpp, views(rects@), 0) {
            Some((j, va, vb)) => r matches Some((i, a, b)) && i == j && view_of(a) == va && view_of(b) == vb,
            None => r is None,
        },
{
    let mut i: usize = 0;
    while i < rects.len()
        invariant
            frames_ok(*curr, *prev, bpp),
            valid_split_state(*curr, *prev, bpp, rects@),
            i <= rects@.len(),
            forall|k: int| 0 <= k < i ==> !splittable(*curr, *prev, bpp, #[trigger] rects@[k]),
            find_view(*curr, *prev, bpp, views(rects@), 0) == find_view(*curr, *prev, bpp, views(rects@), i as int),
        decreases rects@.len() - i,
    {
        assert(is_rect_encoding(*curr, *prev, bpp, rects@[i as int])) by {
            reveal(valid_split_state);
        }
        assert(views(rects@)[i as int] == view_of(rects@[i as int]));
        if let Some((a, b)) = try_split(curr, prev, bpp, &rects[i]) {
            return Some((i, a, b));
        }
        i = i + 1;
    }
    assert(find_view(*curr, *prev, bpp, views(rects@), i as int) is None);
    None
}

/// The key that orders rectangles: row of the corner, then column.
pub open spec fn before(a: Rect, b: Rect) -> bool {
    a.y < b.y || (a.y == b.y && a.x < b.x)
}


fn rect_before(a: &Rect, b: &Rect) -> (r: bool)
    ensures
        r == before(*a, *b),
{
    a.y < b.y || (a.y == b.y && a.x < b.x)
}

proof fn lemma_insert_multiset<A>(s: Seq<A>, j: int, e: A)
    requires
        0 <= j <= s.len(),
    ensures
        s.insert(j, e).to_multiset() =~= s.to_multiset().insert(e),
{
    broadcast use vstd::seq_lib::group_to_multiset_ensures, vstd::multiset::group_multiset_axioms;

    let a = s.subrange(0, j);
    let b = s.subrange(j, s.len() as int);
    assert(s =~= a + b);
    vstd::seq_lib::lemma_multiset_commutative(a.push(e), b);
    vstd::seq_lib::lemma_multiset_commutative(a, b);
}

/// Sorts the entries by the corner of their rectangle, row first.
fn sort_rects(rects: &mut Vec<EncodedRect>)
    ensures
        final(rects)@.to_multiset() == old(rects)@.to_multiset(),
        forall|i: int, j: int| 0 <= i < j < final(rects)@.len() ==> !before(#[trigger] final(rects)@[j].0, #[trigger] final(rects)@[i].0),
{
    let n = rects.len();
    if n == 0 {
        return;
    }
    let mut i: usize = 1;
    while i < n
        invariant
            rects@.len() == n,
            1 <= i <= n,
            rects@.to_multiset() == old(rects)@.to_multiset(),
            forall|a: int, b: int| 0 <= a < b < i ==> !before(#[trigger] rects@[b].0, #[trigger] rects@[a].0),
        decreases n - i,
    {
        let ghost s0 = rects@;
        proof {
            broadcast use vstd::seq_lib::group_to_multiset_ensures, vstd::multiset::group_multiset_axioms;

            assert(s0.remove(i as int).to_multiset() =~= s0.to_multiset().remove(s0[i as int]));
        }
        let e = rects.remove(i);
        let ghost s1 = rects@;
        let mut j: usize = i;
        while j > 0 && rect_before(&e.0, &rects[j - 1].0)
            invariant
                rects@ == s1,
                s1.len() == n - 1,
                j <= i < n,
                forall|k: int| j <= k < i ==> before(e.0, #[trigger] s1[k].0),
            decreases j,
        {
            j = j - 1;
        }
        proof {
            lemma_insert_multiset(s1, j as int, e);
            s1.insert_ensures(j as int, e);
            s0.remove_ensures(i as int);
        }
        rects.insert(j, e);
        assert(rects@ == s1.insert(j as int, e));
        proof {
            broadcast use vstd::seq_lib::group_to_multiset_ensures, vstd::multiset::group_multiset_axioms;

            assert(rects@.to_multiset() =~= s0.to_multiset());
        }
        assert forall|a: int, b: int| 0 <= a < b < i + 1 implies !before(#[trigger] rects@[b].0, #[trigger] rects@[a].0) by {
            let r = rects@;
            let ia = if a < j { a } else if a == j { -1 } else { a - 1 };
            let ib = if b < j { b } else if b == j { -1 } else { b - 1 };
            if a != j && b != j {
                assert(r[a] == s1[ia] && s1[ia] == s0[ia]);
                assert(r[b] == s1[ib] && s1[ib] == s0[ib]);
            } else if a == j {
                assert(before(e.0, s1[ib].0));
                assert(r[b] == s1[ib]);
            } else {
                if j > 0 {
                    assert(!before(e.0, s1[j - 1].0));
                    assert(r[a] == s1[ia]);
                    assert(s1[ia] == s0[ia]);
                    assert(s1[j - 1] == s0[j - 1]);
                    if ia < j - 1 {
                        assert(!before(s0[j - 1].0, s0[ia].0));
                    }
                }
            }
        }
        i = i + 1;
    }
}

proof fn lemma_no_duplicates(curr: Frame, prev: Frame, bpp: u32, s: Seq<EncodedRect>)
    requires
        valid_split_state(curr, prev, bpp, s),
    ensures
        s.no_duplicates(),
{
    reveal(valid_split_state);
    assert forall|i: int, j: int| 0 <= i < s.len() && 0 <= j < s.len() && i != j implies s[i] != s[j] by {
        assert(disjoint(s[i].0, s[j].0));
        assert(is_rect_encoding(curr, prev, bpp, s[i]));
        reveal(is_rect_encoding);
    }
}


proof fn lemma_split_step(curr: Frame, prev: Frame, bpp: u32, s: Seq<EncodedRect>, i: int, a: EncodedRect, b: EncodedRect)
    requires
        valid_split_state(curr, prev, bpp, s),
        0 <= i < s.len(),
        is_improving_split(curr, prev, bpp, s[i], a, b),
    ensures
        valid_split_state(curr, prev, bpp, s.update(i, a).push(b)),
        total_runs(s.update(i, a).push(b)) < total_runs(s),
{
    let t = s.update(i, a).push(b);
    lemma_total_runs_update(s, i, a);
    assert(t.drop_last() =~= s.update(i, a));
    lemma_split_encodings(curr, prev, bpp, s, i, a, b);
    lemma_split_disjoint(curr, prev, bpp, s, i, a, b);
    lemma_split_covers(curr, prev, bpp, s, i, a, b);
    assert(valid_split_state(curr, prev, bpp, t)) by {
        reveal(valid_split_state);
    }
}

proof fn lemma_split_encodings(curr: Frame, prev: Frame, bpp: u32, s: Seq<EncodedRect>, i: int, a: EncodedRect, b: EncodedRect)
    requires
        valid_split_state(curr, prev, bpp, s),
        0 <= i < s.len(),
        is_improving_split(curr, prev, bpp, s[i], a, b),
    ensures
        ({
            let t = s.update(i, a).push(b);
            forall|k: int| 0 <= k < t.len() ==> is_rect_encoding(curr, prev, bpp, #[trigger] t[k]) && tight(curr, prev, t[k].0)
        }),
{
    reveal(valid_split_state);
    let t = s.update(i, a).push(b);
    let n = s.len() as int;
    assert forall|k: int| 0 <= k < t.len() implies is_rect_encoding(curr, prev, bpp, #[trigger] t[k]) && tight(curr, prev, t[k].0) by {
        if k < n && k != i {
            assert(t[k] == s[k]);
        }
    }
}

proof fn lemma_split_disjoint(curr: Frame, prev: Frame, bpp: u32, s: Seq<EncodedRect>, i: int, a: EncodedRect, b: EncodedRect)
    requires
        valid_split_state(curr, prev, bpp, s),
        0 <= i < s.len(),
        is_improving_split(curr, prev, bpp, s[i], a, b),
    ensures
        ({
            let t = s.update(i, a).push(b);
            forall|p: int, q: int| 0 <= p < t.len() && 0 <= q < t.len() && p != q ==> disjoint(#[trigger] t[p].0, #[trigger] t[q].0)
        }),
{
    reveal(valid_split_state);
    let t = s.update(i, a).push(b);
    let n = s.len() as int;
    assert forall|p: int, q: int| 0 <= p < t.len() && 0 <= q < t.len() && p != q implies disjoint(#[trigger] t[p].0, #[trigger] t[q].0) by {
        if p < n && p != i {
            assert(t[p] == s[p]);
            assert(disjoint(s[p].0, s[i].0));
        }
        if q < n && q != i {
            assert(t[q] == s[q]);
            assert(disjoint(s[q].0, s[i].0));
        }
        if p < n && p != i && q < n && q != i {
            assert(disjoint(s[p].0, s[q].0));
        }
    }
}

proof fn lemma_split_covers(curr: Frame, prev: Frame, bpp: u32, s: Seq<EncodedRect>, i: int, a: EncodedRect, b: EncodedRect)
    requires
        valid_split_state(curr, prev, bpp, s),
        0 <= i < s.len(),
        is_improving_split(curr, prev, bpp, s[i], a, b),
    ensures
        ({
            let t = s.update(i, a).push(b);
            forall|x: int, y: int|
                0 <= x < curr.spec_width() && 0 <= y < curr.spec_height() && changed(curr, prev, x, y) ==> exists|k: int|
                    0 <= k < t.len() && #[trigger] contains(t[k].0, x, y)
        }),
{
    reveal(valid_split_state);
    let t = s.update(i, a).push(b);
    let n = s.len() as int;
    assert forall|x: int, y: int|
        0 <= x < curr.spec_width() && 0 <= y < curr.spec_height() && changed(curr, prev, x, y) implies exists|k: int|
            0 <= k < t.len() && #[trigger] contains(t[k].0, x, y) by {
        let k0 = choose|k: int| 0 <= k < s.len() && #[trigger] contains(s[k].0, x, y);
        if k0 == i {
            if contains(a.0, x, y) {
                assert(contains(t[i].0, x, y));
            } else {
                assert(contains(t[n].0, x, y));
            }
        } else {
            assert(t[k0] == s[k0]);
            assert(contains(t[k0].0, x, y));
        }
    }
}

proof fn lemma_sorted_state(curr: Frame, prev: Frame, bpp: u32, unsorted: Seq<EncodedRect>, t: Seq<EncodedRect>, whole: Rect)
    requires
        valid_split_state(curr, prev, bpp, unsorted),
        forall|k: int| 0 <= k < unsorted.len() ==> !splittable(curr, prev, bpp, #[trigger] unsorted[k]),
        t.to_multiset() == unsorted.to_multiset(),
        forall|i: int, j: int| 0 <= i < j < t.len() ==> !before(#[trigger] t[j].0, #[trigger] t[i].0),
        whole == (Rect { x: 0, y: 0, w: curr.spec_width() as u32, h: curr.spec_height() as u32 }),
        curr.spec_width() <= u32::MAX,
        curr.spec_height() <= u32::MAX,
    ensures
        t.len() == 0 <==> no_changes(curr, prev, whole),
        forall|k: int| 0 <= k < t.len() ==> is_rect_encoding(curr, prev, bpp, #[trigger] t[k]) && tight(curr, prev, t[k].0),
        forall|x: int, y: int|
            0 <= x < curr.spec_width() && 0 <= y < curr.spec_height() && changed(curr, prev, x, y) ==> exists|k: int|
                0 <= k < t.len() && #[trigger] contains(t[k].0, x, y),
        forall|i: int, j: int| 0 <= i < j < t.len() ==> before(#[trigger] t[i].0, #[trigger] t[j].0),
        forall|k: int| 0 <= k < t.len() ==> !splittable(curr, prev, bpp, #[trigger] t[k]),
{
    broadcast use vstd::seq_lib::group_to_multiset_ensures, vstd::multiset::group_multiset_axioms;

    reveal(valid_split_state);
    lemma_no_duplicates(curr, prev, bpp, unsorted);
    unsorted.lemma_multiset_has_no_duplicates();
    assert forall|k: int| 0 <= k < t.len() implies unsorted.contains(#[trigger] t[k]) by {
        assert(t.to_multiset().count(t[k]) > 0);
    }
    assert forall|x: EncodedRect| t.to_multiset().contains(x) implies t.to_multiset().count(x) == 1 by {
        assert(unsorted.to_multiset().contains(x));
    }
    t.lemma_multiset_has_no_duplicates_conv();
    assert forall|k: int| 0 <= k < t.len() implies is_rect_encoding(curr, prev, bpp, #[trigger] t[k]) && tight(curr, prev, t[k].0) by {
        assert(unsorted.contains(t[k]));
    }
    assert forall|k: int| 0 <= k < t.len() implies !splittable(curr, prev, bpp, #[trigger] t[k]) by {
        assert(unsorted.contains(t[k]));
        let a = choose|a: int| 0 <= a < unsorted.len() && unsorted[a] == t[k];
        assert(!splittable(curr, prev, bpp, unsorted[a]));
    }
    assert forall|x: int, y: int|
        0 <= x < curr.spec_width() && 0 <= y < curr.spec_height() && changed(curr, prev, x, y) implies exists|k: int|
            0 <= k < t.len() && #[trigger] contains(t[k].0, x, y) by {
        let k0 = choose|k: int| 0 <= k < unsorted.len() && #[trigger] contains(unsorted[k].0, x, y);
        assert(unsorted.to_multiset().count(unsorted[k0]) > 0);
        assert(t.contains(unsorted[k0]));
        let k1 = choose|k: int| 0 <= k < t.len() && t[k] == unsorted[k0];
        assert(contains(t[k1].0, x, y));
    }
    assert forall|i: int, j: int| 0 <= i < j < t.len() implies before(#[trigger] t[i].0, #[trigger] t[j].0) by {
        assert(!before(t[j].0, t[i].0));
        assert(t[i] != t[j]);
        assert(unsorted.contains(t[i]));
        assert(unsorted.contains(t[j]));
        let a = choose|a: int| 0 <= a < unsorted.len() && unsorted[a] == t[i];
        let b = choose|b: int| 0 <= b < unsorted.len() && unsorted[b] == t[j];
        assert(a != b);
        assert(disjoint(unsorted[a].0, unsorted[b].0));
        assert(is_rect_encoding(curr, prev, bpp, unsorted[a]));
        assert(is_rect_encoding(curr, prev, bpp, unsorted[b]));
        reveal(is_rect_encoding);
    }
    if t.len() == 0 {
        assert(unsorted.to_multiset().len() == 0);
        assert forall|x: int, y: int| contains(whole, x, y) implies !changed(curr, prev, x, y) by {
            if changed(curr, prev, x, y) {
                let k = choose|k: int| 0 <= k < unsorted.len() && #[trigger] contains(unsorted[k].0, x, y);
            }
        }
    } else {
        assert(tight(curr, prev, t[0].0));
        reveal(tight);
        reveal(is_rect_encoding);
        let y0 = choose|y: int| #[trigger] contains(t[0].0, t[0].0.x as int, y) && changed(curr, prev, t[0].0.x as int, y);
        assert(contains(whole, t[0].0.x as int, y0));
    }
}

/// `rects` encode the changes from `prev` to `curr`: none when the frames
/// are equal; otherwise tight rectangles, each in its best scan order, that
/// hold every changed pixel, sorted by corner, row first, none of which a
/// line splits into parts that encode more cheaply apart.
pub open spec fn is_frame_encoding(curr: Frame, prev: Frame, bpp: u32, rects: Seq<EncodedRect>) -> bool {
    &&& rects.len() == 0 <==> no_changes(curr, prev, Rect { x: 0, y: 0, w: curr.spec_width() as u32, h: curr.spec_height() as u32 })
    &&& forall|k: int| 0 <= k < rects.len() ==> is_rect_encoding(curr, prev, bpp, #[trigger] rects[k]) && tight(curr, prev, rects[k].0)
    &&& forall|x: int, y: int|
        0 <= x < curr.spec_width() && 0 <= y < curr.spec_height() && changed(curr, prev, x, y) ==> exists|k: int|
            0 <= k < rects.len() && #[trigger] contains(rects[k].0, x, y)
    &&& forall|i: int, j: int| 0 <= i < j < rects.len() ==> before(#[trigger] rects[i].0, #[trigger] rects[j].0)
    &&& forall|k: int| 0 <= k < rects.len() ==> !splittable(curr, prev, bpp, #[trigger] rects[k])
}

/// Encodes the changes from `prev` to `curr`: the bounding rectangle of
/// all changes, split again and again along the first line found whose two
/// sides encode in more than two runs fewer, each rectangle in its best scan
/// order; sorted by corner, row first.
pub fn encode_frame(curr: &Frame, prev: &Frame, bpp: u32) -> (r: Vec<EncodedRect>)
    requires
        frames_ok(*curr, *prev, bpp),
    ensures
        is_frame_encoding(*curr, *prev, bpp, r@),
        r@.len() == split_result(*curr, *prev, bpp).len(),
        forall|k: int| 0 <= k < r@.len() ==> split_result(*curr, *prev, bpp).contains(view_of(#[trigger] r@[k])),
        forall|k: int| 0 <= k < split_result(*curr, *prev, bpp).len() ==> #[trigger] has_view(r@, split_result(*curr, *prev, bpp)[k]),
{
    proof {
        curr.lemma_wf();
    }
    let whole = Rect { x: 0, y: 0, w: curr.width(), h: curr.height() };
    assert(whole == whole_rect(*curr));
    let mut rects: Vec<EncodedRect> = Vec::new();
    if let Some(b) = bounding_rect(curr, prev, whole) {
        rects.push(encode_rect(curr, prev, b, bpp));
        proof {
            lemma_bbox_of(*curr, *prev, whole, b);
            lemma_enc_view(*curr, *prev, bpp, rects@[0]);
            assert(views(rects@) =~= initial_view(*curr, *prev, bpp));
            assert(total_runs(rects@) == rects@[0].2@.len()) by {
                assert(rects@.drop_last() =~= Seq::<EncodedRect>::empty());
                assert(total_runs(Seq::<EncodedRect>::empty()) == 0);
                assert(rects@.last() == rects@[0]);
            }
        }
        assert forall|x: int, y: int|
            0 <= x < curr.spec_width() && 0 <= y < curr.spec_height() && changed(*curr, *prev, x, y) implies exists|k: int|
                0 <= k < rects@.len() && #[trigger] contains(rects@[k].0, x, y) by {
            assert(contains(whole, x, y));
            assert(contains(rects@[0].0, x, y));
        }
    } else {
        assert forall|x: int, y: int|
            0 <= x < curr.spec_width() && 0 <= y < curr.spec_height() implies !changed(*curr, *prev, x, y) by {
            assert(contains(whole, x, y));
        }
        assert(views(rects@) =~= initial_view(*curr, *prev, bpp));
    }
    proof {
        reveal(valid_split_state);
    }
    let ghost init = initial_view(*curr, *prev, bpp);
    let ghost fuel0: nat = if init.len() == 0 { 1 } else { init[0].2.len() + 1 };
    let ghost mut fuel: nat = fuel0;
    assert(init.len() > 0 ==> init[0].2.len() == total_runs(rects@)) by {
        if init.len() > 0 {
            assert(views(rects@)[0] == view_of(rects@[0]));
        }
    }
    loop
        invariant
            frames_ok(*curr, *prev, bpp),
            valid_split_state(*curr, *prev, bpp, rects@),
            split_result(*curr, *prev, bpp) == greedy(*curr, *prev, bpp, views(rects@), fuel),
            fuel > total_runs(rects@),
        ensures
            valid_split_state(*curr, *prev, bpp, rects@),
            forall|k: int| 0 <= k < rects@.len() ==> !splittable(*curr, *prev, bpp, #[trigger] rects@[k]),
            split_result(*curr, *prev, bpp) == views(rects@),
        decreases total_runs(rects@),
    {
        match find_split(curr, prev, bpp, &rects) {
            None => {
                break;
            },
            Some((i, a, b)) => {
                let ghost s = rects@;
                rects.set(i, a);
                rects.push(b);
                proof {
                    lemma_split_step(*curr, *prev, bpp, s, i as int, a, b);
                    lemma_total_runs_update(s, i as int, a);
                    assert(rects@.drop_last() =~= s.update(i as int, a));
                    assert(views(rects@) =~= views(s).update(i as int, view_of(a)).push(view_of(b)));
                    fuel = (fuel - 1) as nat;
                }
            },
        }
    }
    let ghost unsorted = rects@;
    sort_rects(&mut rects);
    proof {
        lemma_sorted_state(*curr, *prev, bpp, unsorted, rects@, whole);
        lemma_same_views(unsorted, rects@);
    }
    rects
}

/// Some entry of `t` has view `v`.
pub open spec fn has_view(t: Seq<EncodedRect>, v: RectView) -> bool {
    exists|j: int| 0 <= j < t.len() && view_of(#[trigger] t[j]) == v
}

/// A rearrangement of `u` holds the same views, as many.
proof fn lemma_same_views(u: Seq<EncodedRect>, t: Seq<EncodedRect>)
    requires
        t.to_multiset() == u.to_multiset(),
    ensures
        t.len() == views(u).len(),
        forall|k: int| 0 <= k < t.len() ==> views(u).contains(view_of(#[trigger] t[k])),
        forall|k: int| 0 <= k < views(u).len() ==> #[trigger] has_view(t, views(u)[k]),
{
    broadcast use vstd::seq_lib::group_to_multiset_ensures, vstd::multiset::group_multiset_axioms;

    assert(t.to_multiset().len() == t.len());
    assert(u.to_multiset().len() == u.len());
    assert(views(u).len() == u.len());
    assert forall|k: int| 0 <= k < t.len() implies views(u).contains(view_of(#[trigger] t[k])) by {
        assert(t.to_multiset().count(t[k]) > 0);
        assert(u.contains(t[k]));
        let m = choose|m: int| 0 <= m < u.len() && u[m] == t[k];
        assert(views(u)[m] == view_of(t[k]));
    }
    assert forall|k: int| 0 <= k < views(u).len() implies #[trigger] has_view(t, views(u)[k]) by {
        assert(u.to_multiset().count(u[k]) > 0);
        assert(t.contains(u[k]));
        let j = choose|j: int| 0 <= j < t.len() && t[j] == u[k];
        assert(view_of(t[j]) == views(u)[k]);
    }
}

/// The one-pixel rectangle at (`x`, `y`).
pub open spec fn pixel_rect(x: int, y: int) -> Rect {
    Rect { x: x as u32, y: y as u32, w: 1, h: 1 }
}

/// A one-pixel rectangle encodes in one run, whatever the order.
proof fn lemma_single_cost(curr: Frame, prev: Frame, bpp: u32, r: Rect)
    requires
        r.w == 1,
        r.h == 1,
    ensures
        best_cost(curr, prev, bpp, r) == 1,
{
    assert forall|o: int| 0 <= o < 4 implies #[trigger] order_cost(curr, prev, bpp, r, o) == 1 by {
        let sets = crate::runs::scan_sets(curr, prev, bpp, r, o);
        assert(sets.len() == 1);
        assert(crate::runs::run_encoding(sets).len() == 1);
    }
    assert(order_cost(curr, prev, bpp, r, 0) == 1 && order_cost(curr, prev, bpp, r, 1) == 1);
    assert(order_cost(curr, prev, bpp, r, 2) == 1 && order_cost(curr, prev, bpp, r, 3) == 1);
}

/// Two changed pixels with an unchanged column between them, whose joint
/// bounding rectangle takes more than four runs, end up as two one-pixel
/// rectangles: the split between them is always taken.
pub proof fn lemma_separated_changes_split(
    curr: Frame,
    prev: Frame,
    bpp: u32,
    rects: Seq<EncodedRect>,
    x1: int,
    y1: int,
    x2: int,
    y2: int,
)
    requires
        frames_ok(curr, prev, bpp),
        is_frame_encoding(curr, prev, bpp, rects),
        0 <= x1,
        x1 + 1 < x2 < curr.spec_width(),
        0 <= y1 < curr.spec_height(),
        0 <= y2 < curr.spec_height(),
        forall|x: int, y: int| 0 <= x < curr.spec_width() && 0 <= y < curr.spec_height() ==> (#[trigger] changed(curr, prev, x, y)
            <==> ((x == x1 && y == y1) || (x == x2 && y == y2))),
        best_cost(curr, prev, bpp, Rect {
            x: x1 as u32,
            y: if y1 <= y2 { y1 } else { y2 } as u32,
            w: (x2 - x1 + 1) as u32,
            h: (if y1 <= y2 { y2 - y1 } else { y1 - y2 } + 1) as u32,
        }) > 4,
    ensures
        rects.len() == 2,
        (rects[0].0 == pixel_rect(x1, y1) && rects[1].0 == pixel_rect(x2, y2)) || (rects[0].0 == pixel_rect(x2, y2)
            && rects[1].0 == pixel_rect(x1, y1)),
{
    curr.lemma_wf();
    let r1 = pixel_rect(x1, y1);
    let r2 = pixel_rect(x2, y2);
    let ylo = if y1 <= y2 { y1 } else { y2 };
    let yhi = if y1 <= y2 { y2 } else { y1 };
    let joint = Rect { x: x1 as u32, y: ylo as u32, w: (x2 - x1 + 1) as u32, h: (yhi - ylo + 1) as u32 };
    assert forall|k: int| 0 <= k < rects.len() implies #[trigger] rects[k].0 == r1 || rects[k].0 == r2 by {
        let e = rects[k];
        let r = e.0;
        assert(is_rect_encoding(curr, prev, bpp, e) && tight(curr, prev, r));
        assert(rect_in(r, curr.spec_width(), curr.spec_height())) by {
            reveal(is_rect_encoding);
        }
        reveal(tight);
        let yl = choose|y: int| #[trigger] contains(r, r.x as int, y) && changed(curr, prev, r.x as int, y);
        let yr = choose|y: int| #[trigger] contains(r, r.x + r.w - 1, y) && changed(curr, prev, r.x + r.w - 1, y);
        let xt = choose|x: int| #[trigger] contains(r, x, r.y as int) && changed(curr, prev, x, r.y as int);
        let xb = choose|x: int| #[trigger] contains(r, x, r.y + r.h - 1) && changed(curr, prev, x, r.y + r.h - 1);
        assert(changed(curr, prev, r.x as int, yl));
        assert(changed(curr, prev, r.x + r.w - 1, yr));
        assert(changed(curr, prev, xt, r.y as int));
        assert(changed(curr, prev, xb, r.y + r.h - 1));
        let has1 = contains(r, x1, y1);
        let has2 = contains(r, x2, y2);
        if has1 && has2 {
            assert(r == joint);
            let x = x1 + 1;
            assert(column_free(curr, prev, r, x)) by {
                assert forall|y: int| r.y <= y < r.y + r.h implies !(changed(curr, prev, x - 1, y) && #[trigger] changed(curr, prev, x, y)) by {
                    assert(!changed(curr, prev, x, y));
                }
            }
            let left = left_of(r, x);
            let right = right_of(r, x);
            assert(is_bbox(curr, prev, left, r1)) by {
                reveal(tight);
                assert(contains(r1, x1, y1));
                assert(contains(r1, r1.x + r1.w - 1, y1));
                assert(contains(r1, x1, r1.y + r1.h - 1));
            }
            assert(is_bbox(curr, prev, right, r2)) by {
                reveal(tight);
                assert(contains(r2, x2, y2));
                assert(contains(r2, r2.x + r2.w - 1, y2));
                assert(contains(r2, x2, r2.y + r2.h - 1));
            }
            lemma_single_cost(curr, prev, bpp, r1);
            lemma_single_cost(curr, prev, bpp, r2);
            lemma_best_cost(curr, prev, bpp, e);
            assert(improves(curr, prev, bpp, e, left, right));
            assert(splittable(curr, prev, bpp, e));
            assert(!splittable(curr, prev, bpp, rects[k]));
        } else {
            assert(r.w == 1 && r.h == 1);
        }
    }
    assert(changed(curr, prev, x1, y1) && changed(curr, prev, x2, y2));
    let k1 = choose|k: int| 0 <= k < rects.len() && #[trigger] contains(rects[k].0, x1, y1);
    let k2 = choose|k: int| 0 <= k < rects.len() && #[trigger] contains(rects[k].0, x2, y2);
    assert(rects[k1].0 == r1);
    assert(rects[k2].0 == r2);
    assert(k1 != k2);
    if rects.len() > 2 {
        // a third rectangle would repeat one of the two, against the strict order
        let k: int = if k1 != 0 && k2 != 0 { 0 } else if k1 != 1 && k2 != 1 { 1 } else { 2 };
        assert(rects[k].0 == r1 || rects[k].0 == r2);
        if rects[k].0 == r1 {
            if k < k1 {
                assert(before(rects[k].0, rects[k1].0));
            } else {
                assert(before(rects[k1].0, rects[k].0));
            }
        } else {
            if k < k2 {
                assert(before(rects[k].0, rects[k2].0));
            } else {
                assert(before(rects[k2].0, rects[k].0));
            }
        }
    }
}

/// Two changed pixels with an unchanged row between them, whose joint
/// bounding rectangle takes more than four runs, end up as two one-pixel
/// rectangles: the split between them is always taken.
pub proof fn lemma_separated_rows_split(
    curr: Frame,
    prev: Frame,
    bpp: u32,
    rects: Seq<EncodedRect>,
    x1: int,
    y1: int,
    x2: int,
    y2: int,
)
    requires
        frames_ok(curr, prev, bpp),
        is_frame_encoding(curr, prev, bpp, rects),
        0 <= y1,
        y1 + 1 < y2 < curr.spec_height(),
        0 <= x1 < curr.spec_width(),
        0 <= x2 < curr.spec_width(),
        forall|x: int, y: int| 0 <= x < curr.spec_width() && 0 <= y < curr.spec_height() ==> (#[trigger] changed(curr, prev, x, y)
            <==> ((x == x1 && y == y1) || (x == x2 && y == y2))),
        best_cost(curr, prev, bpp, Rect {
            x: if x1 <= x2 { x1 } else { x2 } as u32,
            y: y1 as u32,
            w: (if x1 <= x2 { x2 - x1 } else { x1 - x2 } + 1) as u32,
            h: (y2 - y1 + 1) as u32,
        }) > 4,
    ensures
        rects.len() == 2,
        (rects[0].0 == pixel_rect(x1, y1) && rects[1].0 == pixel_rect(x2, y2)) || (rects[0].0 == pixel_rect(x2, y2)
            && rects[1].0 == pixel_rect(x1, y1)),
{
    curr.lemma_wf();
    let r1 = pixel_rect(x1, y1);
    let r2 = pixel_rect(x2, y2);
    let xlo = if x1 <= x2 { x1 } else { x2 };
    let xhi = if x1 <= x2 { x2 } else { x1 };
    let joint = Rect { x: xlo as u32, y: y1 as u32, w: (xhi - xlo + 1) as u32, h: (y2 - y1 + 1) as u32 };
    assert forall|k: int| 0 <= k < rects.len() implies #[trigger] rects[k].0 == r1 || rects[k].0 == r2 by {
        let e = rects[k];
        let r = e.0;
        assert(is_rect_encoding(curr, prev, bpp, e) && tight(curr, prev, r));
        assert(rect_in(r, curr.spec_width(), curr.spec_height())) by {
            reveal(is_rect_encoding);
        }
        reveal(tight);
        let yl = choose|y: int| #[trigger] contains(r, r.x as int, y) && changed(curr, prev, r.x as int, y);
        let yr = choose|y: int| #[trigger] contains(r, r.x + r.w - 1, y) && changed(curr, prev, r.x + r.w - 1, y);
        let xt = choose|x: int| #[trigger] contains(r, x, r.y as int) && changed(curr, prev, x, r.y as int);
        let xb = choose|x: int| #[trigger] contains(r, x, r.y + r.h - 1) && changed(curr, prev, x, r.y + r.h - 1);
        assert(changed(curr, prev, r.x as int, yl));
        assert(changed(curr, prev, r.x + r.w - 1, yr));
        assert(changed(curr, prev, xt, r.y as int));
        assert(changed(curr, prev, xb, r.y + r.h - 1));
        let has1 = contains(r, x1, y1);
        let has2 = contains(r, x2, y2);
        if has1 && has2 {
            assert(r == joint);
            let y = y1 + 1;
            assert(row_free(curr, prev, r, y)) by {
                assert forall|x: int| r.x <= x < r.x + r.w implies !(changed(curr, prev, x, y - 1) && #[trigger] changed(curr, prev, x, y)) by {
                    assert(!changed(curr, prev, x, y));
                }
            }
            let left = above(r, y);
            let right = below(r, y);
            assert(is_bbox(curr, prev, left, r1)) by {
                reveal(tight);
                assert(contains(r1, x1, y1));
                assert(contains(r1, r1.x + r1.w - 1, y1));
                assert(contains(r1, x1, r1.y + r1.h - 1));
            }
            assert(is_bbox(curr, prev, right, r2)) by {
                reveal(tight);
                assert(contains(r2, x2, y2));
                assert(contains(r2, r2.x + r2.w - 1, y2));
                assert(contains(r2, x2, r2.y + r2.h - 1));
            }
            lemma_single_cost(curr, prev, bpp, r1);
            lemma_single_cost(curr, prev, bpp, r2);
            lemma_best_cost(curr, prev, bpp, e);
            assert(improves(curr, prev, bpp, e, left, right));
            assert(splittable(curr, prev, bpp, e));
            assert(!splittable(curr, prev, bpp, rects[k]));
        } else {
            assert(r.w == 1 && r.h == 1);
        }
    }
    assert(changed(curr, prev, x1, y1) && changed(curr, prev, x2, y2));
    let k1 = choose|k: int| 0 <= k < rects.len() && #[trigger] contains(rects[k].0, x1, y1);
    let k2 = choose|k: int| 0 <= k < rects.len() && #[trigger] contains(rects[k].0, x2, y2);
    assert(rects[k1].0 == r1);
    assert(rects[k2].0 == r2);
    assert(k1 != k2);
    if rects.len() > 2 {
        // a third rectangle would repeat one of the two, against the strict order
        let k: int = if k1 != 0 && k2 != 0 { 0 } else if k1 != 1 && k2 != 1 { 1 } else { 2 };
        assert(rects[k].0 == r1 || rects[k].0 == r2);
        if rects[k].0 == r1 {
            if k < k1 {
                assert(before(rects[k].0, rects[k1].0));
            } else {
                assert(before(rects[k1].0, rects[k].0));
            }
        } else {
            if k < k2 {
                assert(before(rects[k].0, rects[k2].0));
            } else {
                assert(before(rects[k2].0, rects[k].0));
            }
        }
    }
}

} // verus!
