//! What replaying a frame's rectangles and runs does to a picture, and the
//! proof that replaying the encoding of a frame onto the one before gives it back.
use vstd::prelude::*;
use vstd::arithmetic::div_mod::lemma_fundamental_div_mod_converse;
use crate::frame::{Frame, Rect, contains, changed, rect_in, scan_xy};
use crate::runs::{
    runs_from, runs_view, scan_sets, unchanged_kind, value_set, frames_ok,
    is_rect_encoding, lemma_value_set_bits, lemma_scan_point,
};
use crate::differ::{EncodedRect, is_frame_encoding};
use crate::frame::scan_points;
use crate::screen::Screen;

verus! {

broadcast use vstd::std_specs::bits::axiom_u16_trailing_zeros;

/// A picture: a palette index at each position.
pub type Picture = spec_fn(int, int) -> nat;

/// Position `i` of the scan `order` of `rect`.
pub open spec fn scan_at(rect: Rect, order: int, i: int) -> (int, int) {
    (rect.x + scan_xy(i, order, rect.w as int, rect.h as int).0, rect.y + scan_xy(i, order, rect.w as int, rect.h as int).1)
}

/// Paints positions `from .. to` of the scan with `kind`; the unchanged
/// kind leaves them as they are.
pub open spec fn paint_span(p: Picture, rect: Rect, order: int, from: int, to: int, kind: nat, unchanged: nat) -> Picture {
    if kind == unchanged {
        p
    } else {
        |x: int, y: int| if exists|i: int| from <= i < to && #[trigger] scan_at(rect, order, i) == (x, y) { kind } else { p(x, y) }
    }
}

/// Replays runs (kind, length) along the scan, from position `from`.
pub open spec fn paint_runs(p: Picture, rect: Rect, order: int, runs: Seq<(nat, nat)>, from: int, unchanged: nat) -> Picture
    decreases runs.len(),
{
    if runs.len() == 0 {
        p
    } else {
        paint_runs(
            paint_span(p, rect, order, from, from + runs[0].1, runs[0].0, unchanged),
            rect,
            order,
            runs.drop_first(),
            from + runs[0].1,
            unchanged,
        )
    }
}

/// Replays the rectangles of a frame record, in order.
pub open spec fn paint_rects(p: Picture, rects: Seq<EncodedRect>, unchanged: nat) -> Picture
    decreases rects.len(),
{
    if rects.len() == 0 {
        p
    } else {
        paint_rects(
            paint_runs(p, rects[0].0, rects[0].1 as int, runs_view(rects[0].2@), 0, unchanged),
            rects.drop_first(),
            unchanged,
        )
    }
}

/// The total length of runs.
pub open spec fn runs_total(runs: Seq<(nat, nat)>) -> nat
    decreases runs.len(),
{
    if runs.len() == 0 {
        0
    } else {
        runs[0].1 + runs_total(runs.drop_first())
    }
}

/// Replaying one more run paints its span after the others.
pub proof fn lemma_paint_runs_push(p: Picture, rect: Rect, order: int, runs: Seq<(nat, nat)>, r: (nat, nat), from: int, unchanged: nat)
    ensures
        paint_runs(p, rect, order, runs.push(r), from, unchanged) == paint_span(
            paint_runs(p, rect, order, runs, from, unchanged),
            rect,
            order,
            from + runs_total(runs),
            from + runs_total(runs) + r.1,
            r.0,
            unchanged,
        ),
        runs_total(runs.push(r)) == runs_total(runs) + r.1,
    decreases runs.len(),
{
    let pushed = runs.push(r);
    if runs.len() == 0 {
        assert(pushed.drop_first() =~= Seq::<(nat, nat)>::empty());
        assert(pushed[0] == r);
        let painted = paint_span(p, rect, order, from, from + r.1, r.0, unchanged);
        assert(paint_runs(painted, rect, order, pushed.drop_first(), from + r.1, unchanged) == painted);
        assert(paint_runs(p, rect, order, pushed, from, unchanged) == painted);
        assert(runs_total(pushed.drop_first()) == 0);
        assert(runs_total(runs) == 0);
    } else {
        let rest = runs.drop_first();
        assert(pushed.drop_first() =~= rest.push(r));
        assert(pushed[0] == runs[0]);
        let painted = paint_span(p, rect, order, from, from + runs[0].1, runs[0].0, unchanged);
        lemma_paint_runs_push(painted, rect, order, rest, r, from + runs[0].1, unchanged);
        assert(paint_runs(p, rect, order, pushed, from, unchanged) == paint_runs(painted, rect, order, rest.push(r), from + runs[0].1, unchanged));
        assert(paint_runs(p, rect, order, runs, from, unchanged) == paint_runs(painted, rect, order, rest, from + runs[0].1, unchanged));
        assert(runs_total(pushed) == runs[0].1 + runs_total(rest.push(r)));
    }
}

/// A decoded rectangle: the rectangle, its scan order, its runs.
pub type Replayed = (Rect, int, Seq<(nat, nat)>);

/// Replays decoded rectangles, in order.
pub open spec fn paint_items(p: Picture, items: Seq<Replayed>, unchanged: nat) -> Picture
    decreases items.len(),
{
    if items.len() == 0 {
        p
    } else {
        let it = items.last();
        paint_runs(paint_items(p, items.drop_last(), unchanged), it.0, it.1, it.2, 0, unchanged)
    }
}

/// The pictures agree on a `width` by `height` area.
pub open spec fn agree(p: Picture, q: Picture, width: nat, height: nat) -> bool {
    forall|x: int, y: int| 0 <= x < width && 0 <= y < height ==> #[trigger] p(x, y) == q(x, y)
}

/// Replaying runs onto pictures that agree on an area gives pictures that agree there.
pub proof fn lemma_paint_runs_agree(
    p: Picture,
    q: Picture,
    rect: Rect,
    order: int,
    runs: Seq<(nat, nat)>,
    from: int,
    unchanged: nat,
    width: nat,
    height: nat,
)
    requires
        agree(p, q, width, height),
    ensures
        agree(paint_runs(p, rect, order, runs, from, unchanged), paint_runs(q, rect, order, runs, from, unchanged), width, height),
    decreases runs.len(),
{
    if runs.len() > 0 {
        let painted = paint_span(p, rect, order, from, from + runs[0].1, runs[0].0, unchanged);
        let painted_q = paint_span(q, rect, order, from, from + runs[0].1, runs[0].0, unchanged);
        assert(agree(painted, painted_q, width, height)) by {
            assert forall|x: int, y: int| 0 <= x < width && 0 <= y < height implies #[trigger] painted(x, y) == painted_q(x, y) by {
                assert(p(x, y) == q(x, y));
            }
        }
        lemma_paint_runs_agree(painted, painted_q, rect, order, runs.drop_first(), from + runs[0].1, unchanged, width, height);
    }
}

/// The picture that a framebuffer shows.
pub open spec fn screen_picture(s: Screen) -> Picture {
    |x: int, y: int| s.pixel(x, y) as nat
}

/// The picture of a frame.
pub open spec fn picture_of(f: Frame) -> Picture {
    |x: int, y: int| f.at(x, y) as nat
}

/// Every position shows its value in `prev` or in `curr`.
pub open spec fn between(p: Picture, curr: Frame, prev: Frame) -> bool {
    forall|x: int, y: int| #[trigger] p(x, y) == prev.at(x, y) || p(x, y) == curr.at(x, y)
}

/// Every position that shows its value in `curr` still does in `q`.
pub open spec fn keeps(p: Picture, q: Picture, curr: Frame) -> bool {
    forall|x: int, y: int| p(x, y) == curr.at(x, y) ==> #[trigger] q(x, y) == curr.at(x, y)
}

/// Every bit of `m` is a bit of `s`.
pub open spec fn bits_within(m: u16, s: u16) -> bool {
    forall|b: u16| b < 16 && #[trigger] ((m >> b) & 1) == 1 ==> (s >> b) & 1 == 1
}

proof fn lemma_and_bits(m: u16, s: u16)
    ensures
        bits_within(m & s, m),
        bits_within(m & s, s),
        bits_within(s, s),
{
    assert(forall|b: u16| b < 16 && #[trigger] (((m & s) >> b) & 1) == 1 ==> (m >> b) & 1 == 1 && (s >> b) & 1 == 1) by (bit_vector);
}

/// Changing pixels of the scan positions `from .. to` of `rect`, whose value
/// sets all hold `kind`, keeps the picture between the frames and shows
/// `curr` there.
proof fn lemma_paint_span(
    p: Picture,
    curr: Frame,
    prev: Frame,
    bpp: u32,
    rect: Rect,
    order: int,
    from: int,
    to: int,
    kind: u16,
)
    requires
        frames_ok(curr, prev, bpp),
        rect_in(rect, curr.spec_width(), curr.spec_height()),
        0 <= order < 4,
        0 <= from <= to <= rect.w * rect.h,
        kind < 16,
        forall|i: int| from <= i < to ==> (#[trigger] scan_sets(curr, prev, bpp, rect, order)[i] >> kind) & 1 == 1,
        between(p, curr, prev),
    ensures
        ({
            let q = paint_span(p, rect, order, from, to, kind as nat, unchanged_kind(bpp) as nat);
            &&& between(q, curr, prev)
            &&& keeps(p, q, curr)
            &&& forall|i: int| from <= i < to ==> q(#[trigger] scan_at(rect, order, i).0, scan_at(rect, order, i).1) == curr.at(
                scan_at(rect, order, i).0,
                scan_at(rect, order, i).1,
            )
        }),
{
    let u = unchanged_kind(bpp);
    let q = paint_span(p, rect, order, from, to, kind as nat, u as nat);
    let sets = scan_sets(curr, prev, bpp, rect, order);
    curr.lemma_wf();
    assert forall|i: int| from <= i < to implies ({
        let (x, y) = #[trigger] scan_at(rect, order, i);
        &&& kind == u ==> curr.at(x, y) == prev.at(x, y)
        &&& kind != u ==> curr.at(x, y) == kind
    }) by {
        lemma_scan_point(rect, order, i);
        let (x, y) = scan_at(rect, order, i);
        assert(scan_points(rect, order)[i] == (x as u32, y as u32));
        assert(sets[i] == value_set(curr.at(x, y), prev.at(x, y), bpp));
        assert((curr.at(x, y) as u32) < (1u32 << bpp));
        lemma_value_set_bits(curr.at(x, y), prev.at(x, y), bpp, kind);
    }
    if kind == u {
        assert forall|i: int| from <= i < to implies q(#[trigger] scan_at(rect, order, i).0, scan_at(rect, order, i).1) == curr.at(
            scan_at(rect, order, i).0,
            scan_at(rect, order, i).1,
        ) by {
            let (x, y) = scan_at(rect, order, i);
            assert(p(x, y) == prev.at(x, y) || p(x, y) == curr.at(x, y));
        }
    } else {
        assert forall|x: int, y: int| #[trigger] q(x, y) == prev.at(x, y) || q(x, y) == curr.at(x, y) by {
            if exists|i: int| from <= i < to && #[trigger] scan_at(rect, order, i) == (x, y) {
                let i = choose|i: int| from <= i < to && #[trigger] scan_at(rect, order, i) == (x, y);
                assert(curr.at(x, y) == kind);
            } else {
                assert(p(x, y) == prev.at(x, y) || p(x, y) == curr.at(x, y));
            }
        }
        assert forall|x: int, y: int| p(x, y) == curr.at(x, y) implies #[trigger] q(x, y) == curr.at(x, y) by {
            if exists|i: int| from <= i < to && #[trigger] scan_at(rect, order, i) == (x, y) {
                let i = choose|i: int| from <= i < to && #[trigger] scan_at(rect, order, i) == (x, y);
                assert(curr.at(x, y) == kind);
            }
        }
        assert forall|i: int| from <= i < to implies q(#[trigger] scan_at(rect, order, i).0, scan_at(rect, order, i).1) == curr.at(
            scan_at(rect, order, i).0,
            scan_at(rect, order, i).1,
        ) by {
            let (x, y) = scan_at(rect, order, i);
            assert(scan_at(rect, order, i) == (x, y));
        }
    }
}

/// Replaying the greedy runs from position `i`, the open run covering
/// `i - length .. i` with common bits `mask`, shows `curr` at every later position.
proof fn lemma_paint_runs_from(
    p: Picture,
    curr: Frame,
    prev: Frame,
    bpp: u32,
    rect: Rect,
    order: int,
    i: nat,
    mask: u16,
    length: nat,
)
    requires
        frames_ok(curr, prev, bpp),
        rect_in(rect, curr.spec_width(), curr.spec_height()),
        0 <= order < 4,
        1 <= length <= i <= rect.w * rect.h,
        mask != 0,
        forall|j: int| i - length <= j < i ==> bits_within(mask, #[trigger] scan_sets(curr, prev, bpp, rect, order)[j]),
        between(p, curr, prev),
    ensures
        ({
            let q = paint_runs(
                p,
                rect,
                order,
                runs_from(scan_sets(curr, prev, bpp, rect, order), i, mask, length),
                i - length,
                unchanged_kind(bpp) as nat,
            );
            &&& between(q, curr, prev)
            &&& keeps(p, q, curr)
            &&& forall|j: int| i - length <= j < rect.w * rect.h ==> q(#[trigger] scan_at(rect, order, j).0, scan_at(rect, order, j).1)
                == curr.at(scan_at(rect, order, j).0, scan_at(rect, order, j).1)
        }),
    decreases rect.w * rect.h - i,
{
    let sets = scan_sets(curr, prev, bpp, rect, order);
    let n = rect.w * rect.h;
    let u = unchanged_kind(bpp) as nat;
    let kind = mask.trailing_zeros() as u16;
    let from = i - length;
    curr.lemma_wf();
    assert(sets.len() == n);
    assert(kind < 16);
    assert((mask >> kind) & 1 == 1);
    assert forall|j: int| from <= j < i implies (#[trigger] sets[j] >> kind) & 1 == 1 by {
        assert(bits_within(mask, sets[j]));
    }
    lemma_paint_span(p, curr, prev, bpp, rect, order, from, i as int, kind);
    let painted = paint_span(p, rect, order, from, i as int, kind as nat, u);
    if i >= n {
        let runs = runs_from(sets, i, mask, length);
        assert(runs == seq![(kind as nat, length)]);
        assert(runs.drop_first() =~= Seq::<(nat, nat)>::empty());
        assert(paint_runs(painted, rect, order, runs.drop_first(), i as int, u) == painted);
        assert(paint_runs(p, rect, order, runs, from, u) == painted);
    } else if sets[i as int] & mask == 0 {
        let rest = runs_from(sets, i + 1, sets[i as int], 1);
        let runs = runs_from(sets, i, mask, length);
        assert(runs == seq![(kind as nat, length)] + rest);
        assert(runs.drop_first() =~= rest);
        lemma_and_bits(mask, sets[i as int]);
        assert(sets[i as int] != 0) by {
            lemma_scan_point(rect, order, i as int);
            let (x, y) = scan_at(rect, order, i as int);
            assert(scan_points(rect, order)[i as int] == (x as u32, y as u32));
            curr.lemma_wf();
            assert((curr.at(x, y) as u32) < (1u32 << bpp));
            lemma_value_set_bits(curr.at(x, y), prev.at(x, y), bpp, 0);
        }
        lemma_paint_runs_from(painted, curr, prev, bpp, rect, order, i + 1, sets[i as int], 1);
        let q = paint_runs(painted, rect, order, rest, i as int, u);
        assert(paint_runs(p, rect, order, runs, from, u) == q);
        assert forall|j: int| from <= j < n implies q(#[trigger] scan_at(rect, order, j).0, scan_at(rect, order, j).1)
            == curr.at(scan_at(rect, order, j).0, scan_at(rect, order, j).1) by {
            if j < i {
                assert(painted(scan_at(rect, order, j).0, scan_at(rect, order, j).1) == curr.at(scan_at(rect, order, j).0, scan_at(rect, order, j).1));
            }
        }
        assert forall|x: int, y: int| p(x, y) == curr.at(x, y) implies #[trigger] q(x, y) == curr.at(x, y) by {
            assert(painted(x, y) == curr.at(x, y));
        }
    } else {
        let m2 = mask & sets[i as int];
        let si = sets[i as int];
        assert((mask & si) == (si & mask)) by (bit_vector);
        lemma_and_bits(mask, sets[i as int]);
        assert forall|j: int| (i + 1) - (length + 1) <= j < i + 1 implies bits_within(m2, #[trigger] sets[j]) by {
            if j < i {
                assert(bits_within(mask, sets[j]));
            }
        }
        lemma_paint_runs_from(p, curr, prev, bpp, rect, order, i + 1, m2, length + 1);
    }
}

/// Scan `order` of `rect` reaches every pixel of it.
pub proof fn lemma_scan_onto(rect: Rect, order: int, x: int, y: int) -> (i: int)
    requires
        1 <= rect.w,
        1 <= rect.h,
        0 <= order < 4,
        contains(rect, x, y),
    ensures
        0 <= i < rect.w * rect.h,
        scan_at(rect, order, i) == (x, y),
{
    let w = rect.w as int;
    let h = rect.h as int;
    let dx = x - rect.x;
    let dy = y - rect.y;
    let i = if order == 0 {
        dy * w + dx
    } else if order == 1 {
        dx * h + dy
    } else if order == 2 {
        dy * w + if dy % 2 == 1 { w - 1 - dx } else { dx }
    } else {
        dx * h + if dx % 2 == 1 { h - 1 - dy } else { dy }
    };
    assert(0 <= dy * w + dx < w * h && 0 <= dy * w + (w - 1 - dx) < w * h) by (nonlinear_arith)
        requires
            0 <= dx < w,
            0 <= dy < h,
    ;
    assert(0 <= dx * h + dy < w * h && 0 <= dx * h + (h - 1 - dy) < w * h) by (nonlinear_arith)
        requires
            0 <= dx < w,
            0 <= dy < h,
    ;
    if order == 0 || order == 2 {
        let c = if order == 2 && dy % 2 == 1 { w - 1 - dx } else { dx };
        lemma_fundamental_div_mod_converse(i, w, dy, c);
    } else {
        let c = if order == 3 && dx % 2 == 1 { h - 1 - dy } else { dy };
        lemma_fundamental_div_mod_converse(i, h, dx, c);
    }
    i
}

/// Replaying one encoded rectangle shows `curr` on all of it.
proof fn lemma_paint_rect(p: Picture, curr: Frame, prev: Frame, bpp: u32, e: EncodedRect)
    requires
        frames_ok(curr, prev, bpp),
        is_rect_encoding(curr, prev, bpp, e),
        between(p, curr, prev),
    ensures
        ({
            let q = paint_runs(p, e.0, e.1 as int, runs_view(e.2@), 0, unchanged_kind(bpp) as nat);
            &&& between(q, curr, prev)
            &&& keeps(p, q, curr)
            &&& forall|x: int, y: int| contains(e.0, x, y) ==> #[trigger] q(x, y) == curr.at(x, y)
        }),
{
    reveal(is_rect_encoding);
    let rect = e.0;
    let order = e.1 as int;
    let sets = scan_sets(curr, prev, bpp, rect, order);
    curr.lemma_wf();
    assert(1 <= rect.w * rect.h) by (nonlinear_arith)
        requires
            1 <= rect.w,
            1 <= rect.h,
    ;
    assert(sets[0] != 0) by {
        lemma_scan_point(rect, order, 0);
        let (x, y) = scan_at(rect, order, 0);
        assert(scan_points(rect, order)[0] == (x as u32, y as u32));
        assert((curr.at(x, y) as u32) < (1u32 << bpp));
        lemma_value_set_bits(curr.at(x, y), prev.at(x, y), bpp, 0);
    }
    lemma_and_bits(sets[0], sets[0]);
    lemma_paint_runs_from(p, curr, prev, bpp, rect, order, 1, sets[0], 1);
    let q = paint_runs(p, rect, order, runs_view(e.2@), 0, unchanged_kind(bpp) as nat);
    assert forall|x: int, y: int| contains(rect, x, y) implies #[trigger] q(x, y) == curr.at(x, y) by {
        let i = lemma_scan_onto(rect, order, x, y);
        assert(scan_at(rect, order, i) == (x, y));
        assert(0 <= i < rect.w * rect.h);
        assert(q(scan_at(rect, order, i).0, scan_at(rect, order, i).1) == curr.at(scan_at(rect, order, i).0, scan_at(rect, order, i).1));
    }
}

proof fn lemma_paint_rects(p: Picture, curr: Frame, prev: Frame, bpp: u32, rects: Seq<EncodedRect>)
    requires
        frames_ok(curr, prev, bpp),
        forall|k: int| 0 <= k < rects.len() ==> is_rect_encoding(curr, prev, bpp, #[trigger] rects[k]),
        between(p, curr, prev),
    ensures
        ({
            let q = paint_rects(p, rects, unchanged_kind(bpp) as nat);
            &&& between(q, curr, prev)
            &&& keeps(p, q, curr)
            &&& forall|k: int, x: int, y: int| 0 <= k < rects.len() && #[trigger] contains(rects[k].0, x, y) ==> q(x, y) == curr.at(x, y)
        }),
    decreases rects.len(),
{
    if rects.len() > 0 {
        let u = unchanged_kind(bpp) as nat;
        let e = rects[0];
        assert(is_rect_encoding(curr, prev, bpp, e));
        lemma_paint_rect(p, curr, prev, bpp, e);
        let painted = paint_runs(p, e.0, e.1 as int, runs_view(e.2@), 0, u);
        let rest = rects.drop_first();
        assert forall|k: int| 0 <= k < rest.len() implies is_rect_encoding(curr, prev, bpp, #[trigger] rest[k]) by {
            assert(rest[k] == rects[k + 1]);
        }
        lemma_paint_rects(painted, curr, prev, bpp, rest);
        let q = paint_rects(p, rects, u);
        assert forall|k: int, x: int, y: int| 0 <= k < rects.len() && #[trigger] contains(rects[k].0, x, y) implies q(x, y) == curr.at(x, y) by {
            if k > 0 {
                assert(rects[k] == rest[k - 1]);
            } else {
                assert(painted(x, y) == curr.at(x, y));
            }
        }
    }
}

/// Frame round trip: replaying the rectangles and runs that `encode_frame`
/// gives for (`prev`, `curr`) onto the picture of `prev` (painting each
/// run's kind along its rectangle's scan order, leaving the unchanged kind
/// as it is) shows exactly `curr`.
pub proof fn lemma_frame_round_trip(curr: Frame, prev: Frame, bpp: u32, rects: Seq<EncodedRect>)
    requires
        frames_ok(curr, prev, bpp),
        is_frame_encoding(curr, prev, bpp, rects),
    ensures
        forall|x: int, y: int|
            0 <= x < curr.spec_width() && 0 <= y < curr.spec_height() ==> #[trigger] paint_rects(
                picture_of(prev),
                rects,
                unchanged_kind(bpp) as nat,
            )(x, y) == curr.at(x, y),
{
    let p = picture_of(prev);
    assert(between(p, curr, prev));
    lemma_paint_rects(p, curr, prev, bpp, rects);
    let q = paint_rects(p, rects, unchanged_kind(bpp) as nat);
    assert forall|x: int, y: int| 0 <= x < curr.spec_width() && 0 <= y < curr.spec_height() implies #[trigger] q(x, y) == curr.at(x, y) by {
        if changed(curr, prev, x, y) {
            let k = choose|k: int| 0 <= k < rects.len() && #[trigger] contains(rects[k].0, x, y);
        } else {
            assert(q(x, y) == prev.at(x, y) || q(x, y) == curr.at(x, y));
        }
    }
}

} // verus!
