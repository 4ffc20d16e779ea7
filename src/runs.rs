//! Value sets, the run encoder, and the competition between scan orders.
use vstd::prelude::*;
use crate::frame::{
    Frame, Rect, MAX_PIXELS, same_size, rect_in, scan, scan_points, lemma_div_mod_bound,
    scan_xy,
};

verus! {

broadcast use vstd::std_specs::bits::axiom_u16_trailing_zeros;

/// A run: `length` pixels of one `kind`, a palette index, or the palette
/// size for pixels left as they were.
#[derive(Clone, Copy, PartialEq, Eq, Structural, Debug, Hash)]
pub struct Run {
    pub length: u32,
    pub kind: u8,
}

/// The kind of the runs of unchanged pixels: the palette size `1 << bpp`.
pub open spec fn unchanged_kind(bpp: u32) -> u16 {
    1u16 << (bpp as u16)
}

/// The value set of a pixel of index `c` whose previous index was `p`:
/// bit `c`, and the bit of `unchanged_kind` when `c == p`.
pub open spec fn value_set(c: u8, p: u8, bpp: u32) -> u16 {
    (1u16 << (c as u16)) | if c == p {
        1u16 << unchanged_kind(bpp)
    } else {
        0u16
    }
}

/// Every pixel of `f` is an index of a palette of `1 << bpp` colours.
pub open spec fn fits_palette(f: Frame, bpp: u32) -> bool {
    forall|x: int, y: int|
        0 <= x < f.spec_width() && 0 <= y < f.spec_height() ==> (#[trigger] f.at(x, y) as u32) < (1u32 << bpp)
}

/// The value sets of the pixels of `rect` in scan `order`.
pub open spec fn scan_sets(curr: Frame, prev: Frame, bpp: u32, rect: Rect, order: int) -> Seq<u16> {
    scan_points(rect, order).map_values(
        |p: (u32, u32)| value_set(curr.at(p.0 as int, p.1 as int), prev.at(p.0 as int, p.1 as int), bpp),
    )
}

/// The greedy runs of `sets` from position `i`, the open run having the
/// common bits `mask` and `length` pixels: each run grows while the next set
/// shares a bit with what the run's sets have in common; its kind is the
/// lowest common bit. Each run as (kind, length).
pub open spec fn runs_from(sets: Seq<u16>, i: nat, mask: u16, length: nat) -> Seq<(nat, nat)>
    decreases sets.len() - i,
{
    if i >= sets.len() {
        seq![(mask.trailing_zeros() as nat, length)]
    } else if sets[i as int] & mask == 0 {
        seq![(mask.trailing_zeros() as nat, length)] + runs_from(sets, i + 1, sets[i as int], 1)
    } else {
        runs_from(sets, i + 1, mask & sets[i as int], length + 1)
    }
}

/// The runs of a nonempty sequence of value sets.
pub open spec fn run_encoding(sets: Seq<u16>) -> Seq<(nat, nat)> {
    runs_from(sets, 1, sets[0], 1)
}

/// Runs as (kind, length) pairs.
pub open spec fn runs_view(runs: Seq<Run>) -> Seq<(nat, nat)> {
    runs.map_values(|r: Run| (r.kind as nat, r.length as nat))
}

/// The number of runs of `rect` in scan `order`.
pub open spec fn order_cost(curr: Frame, prev: Frame, bpp: u32, rect: Rect, order: int) -> nat {
    run_encoding(scan_sets(curr, prev, bpp, rect, order)).len()
}

/// `order` gives the fewest runs of the four scan orders, and is the first that does.
pub open spec fn is_best_order(curr: Frame, prev: Frame, bpp: u32, rect: Rect, order: int) -> bool {
    &&& 0 <= order < 4
    &&& forall|o: int| 0 <= o < 4 ==> order_cost(curr, prev, bpp, rect, order) <= #[trigger] order_cost(curr, prev, bpp, rect, o)
    &&& forall|o: int| 0 <= o < order ==> order_cost(curr, prev, bpp, rect, order) < #[trigger] order_cost(curr, prev, bpp, rect, o)
}

/// `e` is the encoding of its rectangle: the best scan order and its runs.
#[verifier::opaque]
pub open spec fn is_rect_encoding(curr: Frame, prev: Frame, bpp: u32, e: (Rect, usize, Vec<Run>)) -> bool {
    &&& rect_in(e.0, curr.spec_width(), curr.spec_height())
    &&& is_best_order(curr, prev, bpp, e.0, e.1 as int)
    &&& runs_view(e.2@) == run_encoding(scan_sets(curr, prev, bpp, e.0, e.1 as int))
}

/// The frames can be encoded together with a palette of `1 << bpp` colours.
pub open spec fn frames_ok(curr: Frame, prev: Frame, bpp: u32) -> bool {
    &&& curr.wf()
    &&& prev.wf()
    &&& same_size(curr, prev)
    &&& bpp <= 3
    &&& fits_palette(curr, bpp)
    &&& fits_palette(prev, bpp)
}

pub proof fn lemma_value_set_bits(c: u8, p: u8, bpp: u32, k: u16)
    requires
        bpp <= 3,
        (c as u32) < (1u32 << bpp),
        k < 16,
    ensures
        ((value_set(c, p, bpp) >> k) & 1 == 1) == (k == c || (c == p && k == unchanged_kind(bpp))),
        value_set(c, p, bpp) != 0,
        unchanged_kind(bpp) <= 8,
        c < unchanged_kind(bpp),
{
    let b = bpp as u16;
    let cc = c as u16;
    assert(bpp <= 3 ==> b <= 3) by (bit_vector)
        requires
            b == bpp as u16,
    ;
    assert(bpp <= 3 && (c as u32) < (1u32 << bpp) ==> cc < (1u16 << b)) by (bit_vector)
        requires
            cc == c as u16,
            b == bpp as u16,
    ;
    lemma_set_bits(cc, b, c == p, k);
    assert(value_set(c, p, bpp) == (1u16 << cc) | if c == p { 1u16 << (1u16 << b) } else { 0u16 });
}

proof fn lemma_set_bits(cc: u16, b: u16, same: bool, k: u16)
    requires
        b <= 3,
        cc < (1u16 << b),
        k < 16,
    ensures
        ((((1u16 << cc) | if same { 1u16 << (1u16 << b) } else { 0u16 }) >> k) & 1 == 1)
            == (k == cc || (same && k == (1u16 << b))),
        ((1u16 << cc) | if same { 1u16 << (1u16 << b) } else { 0u16 }) != 0,
        (1u16 << b) <= 8,
{
    assert((1u16 << b) <= 8) by (bit_vector)
        requires
            b <= 3,
    ;
    if same {
        assert((((1u16 << cc) | (1u16 << (1u16 << b))) >> k) & 1 == 1 <==> (k == cc || k == (1u16 << b))) by (bit_vector)
            requires
                b <= 3,
                cc < (1u16 << b),
                k < 16,
        ;
        assert(((1u16 << cc) | (1u16 << (1u16 << b))) != 0) by (bit_vector)
            requires
                cc < 8,
        ;
    } else {
        assert((((1u16 << cc) | 0u16) >> k) & 1 == 1 <==> k == cc) by (bit_vector)
            requires
                cc < 8,
                k < 16,
        ;
        assert(((1u16 << cc) | 0u16) != 0) by (bit_vector)
            requires
                cc < 8,
        ;
    }
}

/// The value sets of `curr` against `prev` at `points`.
pub fn value_sets(curr: &Frame, prev: &Frame, points: &Vec<(u32, u32)>, bpp: u32) -> (r: Vec<u16>)
    requires
        frames_ok(*curr, *prev, bpp),
        forall|i: int| 0 <= i < points@.len() ==> (#[trigger] points@[i]).0 < curr.spec_width() && points@[i].1 < curr.spec_height(),
    ensures
        r@ == points@.map_values(
            |p: (u32, u32)| value_set(curr.at(p.0 as int, p.1 as int), prev.at(p.0 as int, p.1 as int), bpp),
        ),
{
    assert(bpp <= 3 ==> (1u16 << (bpp as u16)) <= 8) by (bit_vector);
    let unchanged: u16 = 1u16 << (bpp as u16);
    let mut out: Vec<u16> = Vec::new();
    let mut i: usize = 0;
    while i < points.len()
        invariant
            frames_ok(*curr, *prev, bpp),
            unchanged == unchanged_kind(bpp),
            unchanged <= 8,
            forall|i: int| 0 <= i < points@.len() ==> (#[trigger] points@[i]).0 < curr.spec_width() && points@[i].1 < curr.spec_height(),
            i <= points@.len(),
            out@ == points@.take(i as int).map_values(
                |p: (u32, u32)| value_set(curr.at(p.0 as int, p.1 as int), prev.at(p.0 as int, p.1 as int), bpp),
            ),
        decreases points@.len() - i,
    {
        let (x, y) = points[i];
        let c = curr.get(x, y);
        let p = prev.get(x, y);
        assert(c < 8 && p < 8) by {
            assert((c as u32) < (1u32 << bpp));
            assert((p as u32) < (1u32 << bpp));
            assert(bpp <= 3 ==> (1u32 << bpp) <= 8) by (bit_vector);
        }
        let set = (1u16 << (c as u16)) | if c == p {
            1u16 << unchanged
        } else {
            0u16
        };
        out.push(set);
        assert(points@.take(i + 1) =~= points@.take(i as int).push(points@[i as int]));
        assert(out@ =~= points@.take(i + 1).map_values(
            |p: (u32, u32)| value_set(curr.at(p.0 as int, p.1 as int), prev.at(p.0 as int, p.1 as int), bpp),
        ));
        i = i + 1;
    }
    assert(points@.take(i as int) =~= points@);
    out
}

/// The greedy runs of a nonempty sequence of value sets.
pub fn encode(value_sets: &Vec<u16>) -> (r: Vec<Run>)
    requires
        1 <= value_sets@.len() <= MAX_PIXELS,
    ensures
        runs_view(r@) == run_encoding(value_sets@),
{
    let ghost sets = value_sets@;
    let mut data: Vec<Run> = Vec::new();
    let mut length: u32 = 1;
    let mut current: u16 = value_sets[0];
    let mut i: usize = 1;
    while i < value_sets.len()
        invariant
            sets == value_sets@,
            1 <= i <= sets.len() <= MAX_PIXELS,
            1 <= length <= i,
            runs_view(data@) + runs_from(sets, i as nat, current, length as nat) == run_encoding(sets),
        decreases sets.len() - i,
    {
        let next = value_sets[i];
        if next & current == 0 {
            let ghost before = data@;
            data.push(Run { length, kind: current.trailing_zeros() as u8 });
            assert(runs_view(data@) =~= runs_view(before).push((current.trailing_zeros() as nat, length as nat)));
            assert(runs_view(data@) + runs_from(sets, (i + 1) as nat, next, 1) =~= runs_view(before)
                + runs_from(sets, i as nat, current, length as nat));
            length = 1;
            current = next;
        } else {
            length = length + 1;
            current = current & next;
        }
        i = i + 1;
    }
    let ghost before = data@;
    data.push(Run { length, kind: current.trailing_zeros() as u8 });
    assert(runs_view(data@) =~= runs_view(before) + runs_from(sets, i as nat, current, length as nat));
    data
}

/// Encodes `rect` in each of the four scan orders and keeps the one with
/// the fewest runs, the first of them on a tie.
pub fn encode_rect(curr: &Frame, prev: &Frame, rect: Rect, bpp: u32) -> (r: (Rect, usize, Vec<Run>))
    requires
        frames_ok(*curr, *prev, bpp),
        rect_in(rect, curr.spec_width(), curr.spec_height()),
    ensures
        r.0 == rect,
        is_rect_encoding(*curr, *prev, bpp, r),
{
    proof {
        lemma_rect_area(rect, *curr);
    }
    let mut best_order: usize = 0;
    let mut best = encode_order(curr, prev, rect, 0, bpp);
    let mut order: usize = 1;
    while order < 4
        invariant
            frames_ok(*curr, *prev, bpp),
            rect_in(rect, curr.spec_width(), curr.spec_height()),
            1 <= order <= 4,
            best_order < order,
            runs_view(best@) == run_encoding(scan_sets(*curr, *prev, bpp, rect, best_order as int)),
            forall|o: int| 0 <= o < order ==> order_cost(*curr, *prev, bpp, rect, best_order as int) <= #[trigger] order_cost(*curr, *prev, bpp, rect, o),
            forall|o: int| 0 <= o < best_order ==> order_cost(*curr, *prev, bpp, rect, best_order as int) < #[trigger] order_cost(*curr, *prev, bpp, rect, o),
        decreases 4 - order,
    {
        let runs = encode_order(curr, prev, rect, order as u32, bpp);
        if runs.len() < best.len() {
            best = runs;
            best_order = order;
        }
        order = order + 1;
    }
    proof {
        reveal(is_rect_encoding);
    }
    (rect, best_order, best)
}

proof fn lemma_rect_area(rect: Rect, f: Frame)
    requires
        f.wf(),
        rect_in(rect, f.spec_width(), f.spec_height()),
    ensures
        rect.w * rect.h <= MAX_PIXELS,
        1 <= rect.w * rect.h,
        rect.x + rect.w <= MAX_PIXELS,
        rect.y + rect.h <= MAX_PIXELS,
{
    f.lemma_wf();
    assert(rect.x + rect.w <= MAX_PIXELS && rect.y + rect.h <= MAX_PIXELS);
    assert(rect.w * rect.h <= f.spec_width() * f.spec_height()) by (nonlinear_arith)
        requires
            rect.w <= f.spec_width(),
            rect.h <= f.spec_height(),
    ;
    assert(1 <= rect.w * rect.h) by (nonlinear_arith)
        requires
            1 <= rect.w,
            1 <= rect.h,
    ;
}

/// The runs of `rect` in scan `order`.
fn encode_order(curr: &Frame, prev: &Frame, rect: Rect, order: u32, bpp: u32) -> (r: Vec<Run>)
    requires
        frames_ok(*curr, *prev, bpp),
        rect_in(rect, curr.spec_width(), curr.spec_height()),
        order < 4,
    ensures
        runs_view(r@) == run_encoding(scan_sets(*curr, *prev, bpp, rect, order as int)),
        r@.len() == order_cost(*curr, *prev, bpp, rect, order as int),
{
    proof {
        lemma_rect_area(rect, *curr);
    }
    let points = scan(rect, order);
    assert forall|i: int| 0 <= i < points@.len() implies (#[trigger] points@[i]).0 < curr.spec_width()
        && points@[i].1 < curr.spec_height() by {
        lemma_scan_point(rect, order as int, i);
    }
    let sets = value_sets(curr, prev, &points, bpp);
    assert(sets@ == scan_sets(*curr, *prev, bpp, rect, order as int));
    let runs = encode(&sets);
    assert(runs_view(runs@).len() == runs@.len());
    runs
}

pub proof fn lemma_scan_point(rect: Rect, order: int, i: int)
    requires
        1 <= rect.w,
        1 <= rect.h,
        0 <= order < 4,
        0 <= i < rect.w * rect.h,
        rect.x + rect.w <= u32::MAX,
        rect.y + rect.h <= u32::MAX,
    ensures
        rect.x <= scan_points(rect, order)[i].0 < rect.x + rect.w,
        rect.y <= scan_points(rect, order)[i].1 < rect.y + rect.h,
        0 <= scan_xy(i, order, rect.w as int, rect.h as int).0 < rect.w,
        0 <= scan_xy(i, order, rect.w as int, rect.h as int).1 < rect.h,
{
    lemma_div_mod_bound(i, rect.w as int, rect.h as int);
    assert(i < rect.h * rect.w) by (nonlinear_arith)
        requires
            i < rect.w * rect.h,
    ;
    lemma_div_mod_bound(i, rect.h as int, rect.w as int);
}

} // verus!
