//! Frames of palette indices, rectangles, and the four scan orders.
use vstd::prelude::*;
use vstd::arithmetic::div_mod::{lemma_fundamental_div_mod, lemma_mod_bound};

verus! {

/// The largest number of pixels in a frame.
pub const MAX_PIXELS: u32 = 0x10_0000;

/// A frame: a grid of palette indices, stored row after row.
pub struct Frame {
    width: u32,
    height: u32,
    pixels: Vec<u8>,
}

/// An axis-aligned rectangle of pixels.
#[derive(Clone, Copy, PartialEq, Eq, Structural, Debug)]
pub struct Rect {
    pub x: u32,
    pub y: u32,
    pub w: u32,
    pub h: u32,
}

pub proof fn lemma_div_mod_bound(i: int, w: int, h: int)
    requires
        0 <= i < w * h,
        w >= 1,
    ensures
        0 <= i / w < h,
        0 <= i % w < w,
        (i / w) * w + i % w == i,
{
    lemma_fundamental_div_mod(i, w);
    lemma_mod_bound(i, w);
    assert(0 <= i / w < h) by (nonlinear_arith)
        requires
            i == w * (i / w) + i % w,
            0 <= i % w < w,
            0 <= i < w * h,
            w >= 1,
    ;
    assert((i / w) * w == w * (i / w)) by (nonlinear_arith);
}

pub proof fn lemma_index_bound(x: int, y: int, w: int, h: int)
    requires
        0 <= x < w,
        0 <= y < h,
    ensures
        0 <= y * w + x < w * h,
{
    assert(0 <= y * w + x < w * h) by (nonlinear_arith)
        requires
            0 <= x < w,
            0 <= y < h,
    ;
}

impl Frame {
    pub closed spec fn wf(&self) -> bool {
        &&& 1 <= self.width
        &&& 1 <= self.height
        &&& self.width * self.height <= MAX_PIXELS
        &&& self.pixels@.len() == self.width * self.height
    }

    pub proof fn lemma_wf(&self)
        requires
            self.wf(),
        ensures
            1 <= self.spec_width(),
            1 <= self.spec_height(),
            self.spec_width() * self.spec_height() <= MAX_PIXELS,
            self.spec_width() <= MAX_PIXELS,
            self.spec_height() <= MAX_PIXELS,
    {
        let w = self.spec_width();
        let h = self.spec_height();
        assert(w <= w * h && h <= w * h) by (nonlinear_arith)
            requires
                1 <= w,
                1 <= h,
        ;
    }

    pub closed spec fn spec_width(&self) -> nat {
        self.width as nat
    }

    pub closed spec fn spec_height(&self) -> nat {
        self.height as nat
    }

    /// The palette index at column `x`, row `y`.
    pub closed spec fn at(&self, x: int, y: int) -> u8 {
        self.pixels@[y * self.width + x]
    }

    /// The pixels, row after row.
    pub closed spec fn pixels(&self) -> Seq<u8> {
        self.pixels@
    }

    /// A frame of `width` by `height` pixels given row after row; `None`
    /// unless both are at least 1, the count of pixels matches, and there
    /// are at most `MAX_PIXELS`.
    pub fn new(width: u32, height: u32, pixels: Vec<u8>) -> (r: Option<Frame>)
        ensures
            r is Some <==> (1 <= width && 1 <= height && width * height <= MAX_PIXELS
                && pixels@.len() == width * height),
            r matches Some(f) ==> f.wf() && f.spec_width() == width && f.spec_height() == height
                && f.pixels() == pixels@,
    {
        if width == 0 || height == 0 {
            return None;
        }
        assert((width as u64) * (height as u64) <= 0xffff_ffff_ffff_ffff) by (nonlinear_arith)
            requires
                width <= 0xffff_ffff,
                height <= 0xffff_ffff,
        ;
        if (width as u64) * (height as u64) > MAX_PIXELS as u64 {
            return None;
        }
        if pixels.len() as u64 != (width as u64) * (height as u64) {
            return None;
        }
        Some(Frame { width, height, pixels })
    }

    /// A frame of `width` by `height` pixels, all of palette index 0.
    pub fn blank(width: u32, height: u32) -> (r: Frame)
        requires
            1 <= width,
            1 <= height,
            width * height <= MAX_PIXELS,
        ensures
            r.wf(),
            r.spec_width() == width,
            r.spec_height() == height,
            forall|x: int, y: int| 0 <= x < width && 0 <= y < height ==> r.at(x, y) == 0,
    {
        let n = width * height;
        let pixels = vec![0u8; n as usize];
        let r = Frame { width, height, pixels };
        assert forall|x: int, y: int| 0 <= x < width && 0 <= y < height implies r.at(x, y) == 0 by {
            lemma_index_bound(x, y, width as int, height as int);
        }
        r
    }

    pub fn width(&self) -> (r: u32)
        ensures
            r == self.spec_width(),
    {
        self.width
    }

    pub fn height(&self) -> (r: u32)
        ensures
            r == self.spec_height(),
    {
        self.height
    }

    /// The palette index at column `x`, row `y`.
    pub fn get(&self, x: u32, y: u32) -> (r: u8)
        requires
            self.wf(),
            x < self.spec_width(),
            y < self.spec_height(),
        ensures
            r == self.at(x as int, y as int),
    {
        proof {
            lemma_index_bound(x as int, y as int, self.width as int, self.height as int);
        }
        self.pixels[(y * self.width + x) as usize]
    }
}

/// Two frames of the same size.
pub open spec fn same_size(a: Frame, b: Frame) -> bool {
    a.spec_width() == b.spec_width() && a.spec_height() == b.spec_height()
}

/// The pixel at (`x`, `y`) differs between the frames.
pub open spec fn changed(curr: Frame, prev: Frame, x: int, y: int) -> bool {
    curr.at(x, y) != prev.at(x, y)
}

/// The rectangle holds (`x`, `y`).
pub open spec fn contains(r: Rect, x: int, y: int) -> bool {
    r.x <= x < r.x + r.w && r.y <= y < r.y + r.h
}

/// The rectangle is nonempty and lies inside a `width` by `height` frame.
pub open spec fn rect_in(r: Rect, width: nat, height: nat) -> bool {
    1 <= r.w && 1 <= r.h && r.x + r.w <= width && r.y + r.h <= height
}

/// `a` lies inside `b`.
pub open spec fn rect_within(a: Rect, b: Rect) -> bool {
    b.x <= a.x && a.x + a.w <= b.x + b.w && b.y <= a.y && a.y + a.h <= b.y + b.h
}

/// Every changed pixel of `start` lies in `r`.
pub open spec fn covers_changes(curr: Frame, prev: Frame, start: Rect, r: Rect) -> bool {
    forall|x: int, y: int| contains(start, x, y) && changed(curr, prev, x, y) ==> contains(r, x, y)
}

/// No pixel of `start` changed.
pub open spec fn no_changes(curr: Frame, prev: Frame, start: Rect) -> bool {
    forall|x: int, y: int| contains(start, x, y) ==> !changed(curr, prev, x, y)
}

/// Each edge of `r` holds a changed pixel.
#[verifier::opaque]
pub open spec fn tight(curr: Frame, prev: Frame, r: Rect) -> bool {
    &&& exists|y: int| #[trigger] contains(r, r.x as int, y) && changed(curr, prev, r.x as int, y)
    &&& exists|y: int| #[trigger] contains(r, r.x + r.w - 1, y) && changed(curr, prev, r.x + r.w - 1, y)
    &&& exists|x: int| #[trigger] contains(r, x, r.y as int) && changed(curr, prev, x, r.y as int)
    &&& exists|x: int| #[trigger] contains(r, x, r.y + r.h - 1) && changed(curr, prev, x, r.y + r.h - 1)
}

/// Position `i` of the scan `order` of a `w` by `h` rectangle, relative to
/// its corner: 0 row after row, 1 column after column, 2 rows alternating
/// direction, 3 columns alternating direction.
pub open spec fn scan_xy(i: int, order: int, w: int, h: int) -> (int, int) {
    if order == 0 {
        (i % w, i / w)
    } else if order == 1 {
        (i / h, i % h)
    } else if order == 2 {
        if (i / w) % 2 == 1 {
            (w - 1 - i % w, i / w)
        } else {
            (i % w, i / w)
        }
    } else {
        if (i / h) % 2 == 1 {
            (i / h, h - 1 - i % h)
        } else {
            (i / h, i % h)
        }
    }
}

/// The pixels of `r` in scan `order`.
pub open spec fn scan_points(r: Rect, order: int) -> Seq<(u32, u32)> {
    Seq::new(
        (r.w * r.h) as nat,
        |i: int|
            (
                (r.x + scan_xy(i, order, r.w as int, r.h as int).0) as u32,
                (r.y + scan_xy(i, order, r.w as int, r.h as int).1) as u32,
            ),
    )
}

/// Where position `i` of scan `order` falls in a `w` by `h` rectangle.
pub fn get_xy(i: u32, order: u32, w: u32, h: u32) -> (r: (u32, u32))
    requires
        1 <= w,
        1 <= h,
        i < w * h,
        order < 4,
    ensures
        r.0 == scan_xy(i as int, order as int, w as int, h as int).0,
        r.1 == scan_xy(i as int, order as int, w as int, h as int).1,
        r.0 < w,
        r.1 < h,
    decreases order,
{
    if order & 1 == 1 {
        assert(order & 1 == 1 ==> order == 1 || order == 3) by (bit_vector)
            requires
                order < 4,
        ;
        assert(order & !1u32 == order - 1) by (bit_vector)
            requires
                order & 1 == 1,
                order < 4,
        ;
        assert(i < h * w) by (nonlinear_arith)
            requires
                i < w * h,
        ;
        let (y, x) = get_xy(i, order & !1, h, w);
        return (x, y);
    }
    assert(order & 1 != 1 ==> order == 0 || order == 2) by (bit_vector)
        requires
            order < 4,
    ;
    proof {
        lemma_div_mod_bound(i as int, w as int, h as int);
    }
    if order == 0 {
        (i % w, i / w)
    } else {
        let y = i / w;
        let x = i % w;
        if y % 2 != 0 {
            (w - x - 1, y)
        } else {
            (x, y)
        }
    }
}

/// The pixels of `rect` in scan `order`, through `get_xy`.
fn scan_with(rect: Rect, order: u32) -> (r: Vec<(u32, u32)>)
    requires
        1 <= rect.w,
        1 <= rect.h,
        rect.x + rect.w <= u32::MAX,
        rect.y + rect.h <= u32::MAX,
        rect.w * rect.h <= MAX_PIXELS,
        order < 4,
    ensures
        r@ == scan_points(rect, order as int),
{
    let n = rect.w * rect.h;
    let mut out: Vec<(u32, u32)> = Vec::new();
    let mut i: u32 = 0;
    while i < n
        invariant
            n == rect.w * rect.h,
            i <= n,
            1 <= rect.w,
            1 <= rect.h,
            rect.x + rect.w <= u32::MAX,
            rect.y + rect.h <= u32::MAX,
            order < 4,
            out@ == scan_points(rect, order as int).take(i as int),
        decreases n - i,
    {
        let (dx, dy) = get_xy(i, order, rect.w, rect.h);
        out.push((rect.x + dx, rect.y + dy));
        assert(out@ =~= scan_points(rect, order as int).take(i + 1));
        i = i + 1;
    }
    assert(scan_points(rect, order as int).take(n as int) =~= scan_points(rect, order as int));
    out
}

/// The pixels of `rect` row after row.
pub fn scanline(rect: Rect) -> (r: Vec<(u32, u32)>)
    requires
        1 <= rect.w,
        1 <= rect.h,
        rect.x + rect.w <= u32::MAX,
        rect.y + rect.h <= u32::MAX,
        rect.w * rect.h <= MAX_PIXELS,
    ensures
        r@ == scan_points(rect, 0),
{
    scan_with(rect, 0)
}

/// The pixels of `rect` row after row, every other row right to left.
pub fn snake(rect: Rect) -> (r: Vec<(u32, u32)>)
    requires
        1 <= rect.w,
        1 <= rect.h,
        rect.x + rect.w <= u32::MAX,
        rect.y + rect.h <= u32::MAX,
        rect.w * rect.h <= MAX_PIXELS,
    ensures
        r@ == scan_points(rect, 2),
{
    scan_with(rect, 2)
}

/// The scan of the transposed rectangle, each point transposed back: the
/// column-wise counterpart of a row-wise scan (`order` 0 or 2).
pub fn transpose(order: u32, rect: Rect) -> (r: Vec<(u32, u32)>)
    requires
        order == 0 || order == 2,
        1 <= rect.w,
        1 <= rect.h,
        rect.x + rect.w <= u32::MAX,
        rect.y + rect.h <= u32::MAX,
        rect.w * rect.h <= MAX_PIXELS,
    ensures
        r@ == scan_points(rect, order + 1),
{
    let flipped = Rect { x: rect.y, y: rect.x, w: rect.h, h: rect.w };
    assert(rect.h * rect.w == rect.w * rect.h) by (nonlinear_arith);
    let points = scan_with(flipped, order);
    let mut out: Vec<(u32, u32)> = Vec::new();
    let mut i: usize = 0;
    while i < points.len()
        invariant
            points@ == scan_points(flipped, order as int),
            flipped == (Rect { x: rect.y, y: rect.x, w: rect.h, h: rect.w }),
            order == 0 || order == 2,
            rect.h * rect.w == rect.w * rect.h,
            i <= points@.len(),
            out@ == scan_points(rect, order + 1).take(i as int),
        decreases points@.len() - i,
    {
        let (a, b) = points[i];
        out.push((b, a));
        assert(out@ =~= scan_points(rect, order + 1).take(i + 1));
        i = i + 1;
    }
    assert(scan_points(rect, order + 1).take(i as int) =~= scan_points(rect, order + 1));
    out
}

/// The pixels of `rect` in scan `order`.
pub fn scan(rect: Rect, order: u32) -> (r: Vec<(u32, u32)>)
    requires
        1 <= rect.w,
        1 <= rect.h,
        rect.x + rect.w <= u32::MAX,
        rect.y + rect.h <= u32::MAX,
        rect.w * rect.h <= MAX_PIXELS,
        order < 4,
    ensures
        r@ == scan_points(rect, order as int),
{
    if order == 0 {
        scanline(rect)
    } else if order == 1 {
        transpose(0, rect)
    } else if order == 2 {
        snake(rect)
    } else {
        transpose(2, rect)
    }
}

} // verus!
