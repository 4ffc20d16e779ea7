//! The packed framebuffer the decoder paints: 160 by 160 physical pixels of
//! two bits, four to a byte, the movie scaled up by a whole factor and centred.
use vstd::prelude::*;

verus! {

/// Width and height of the physical display.
pub const SIDE: u32 = 160;

/// Bytes of the framebuffer.
pub const BYTES: usize = 6400;

/// The two bits of physical pixel `p` in `bytes`.
pub open spec fn phys(bytes: Seq<u8>, p: int) -> u8 {
    ((bytes[p / 4] >> (((p % 4) * 2) as u8)) & 3u8) as u8
}

proof fn lemma_write_slot(b: u8, s: u8, v: u8, t: u8)
    requires
        s < 4,
        t < 4,
        v < 4,
    ensures
        ((((b & !(3u8 << (2 * s))) | (v << (2 * s))) >> (2 * t)) & 3) == if s == t { v } else { (b >> (2 * t)) & 3 },
{
    assert(((((b & !(3u8 << (2 * s))) | (v << (2 * s))) >> (2 * t)) & 3) == if s == t { v } else { (b >> (2 * t)) & 3 }) by (bit_vector)
        requires
            s < 4,
            t < 4,
            v < 4,
    ;
}

proof fn lemma_xor_slot(b: u8, s: u8, v: u8, t: u8)
    requires
        s < 4,
        t < 4,
        v < 4,
    ensures
        (((b ^ (v << (2 * s))) >> (2 * t)) & 3) == if s == t { ((b >> (2 * t)) & 3) ^ v } else { (b >> (2 * t)) & 3 },
{
    assert((((b ^ (v << (2 * s))) >> (2 * t)) & 3) == if s == t { ((b >> (2 * t)) & 3) ^ v } else { (b >> (2 * t)) & 3 }) by (bit_vector)
        requires
            s < 4,
            t < 4,
            v < 4,
    ;
}

proof fn lemma_index_injective(w: nat, h: nat, ps: nat, x: int, y: int, dx1: int, dy1: int, dx2: int, dy2: int)
    requires
        w * ps <= SIDE,
        h * ps <= SIDE,
        0 <= x < w,
        0 <= y < h,
        0 <= dx1 < ps,
        0 <= dy1 < ps,
        0 <= dx2 < ps,
        0 <= dy2 < ps,
    ensures
        0 <= phys_index(w, h, ps, x, y, dx1, dy1) < SIDE * SIDE,
        phys_index(w, h, ps, x, y, dx1, dy1) == phys_index(w, h, ps, x, y, dx2, dy2) ==> dx1 == dx2 && dy1 == dy2,
{
    let ox = (SIDE - w * ps) / 2;
    let oy = (SIDE - h * ps) / 2;
    assert(x * ps + dx1 < w * ps && x * ps + dx2 < w * ps && y * ps + dy1 < h * ps) by (nonlinear_arith)
        requires
            0 <= x < w,
            0 <= y < h,
            0 <= dx1 < ps,
            0 <= dx2 < ps,
            0 <= dy1 < ps,
    ;
    assert(0 <= x * ps && 0 <= y * ps) by (nonlinear_arith)
        requires
            0 <= x,
            0 <= y,
    ;
    let r1 = y * ps + dy1 + oy;
    let r2 = y * ps + dy2 + oy;
    let c1 = x * ps + dx1 + ox;
    let c2 = x * ps + dx2 + ox;
    assert(0 <= r1 * SIDE + c1 < SIDE * SIDE) by (nonlinear_arith)
        requires
            0 <= r1 < SIDE,
            0 <= c1 < SIDE,
    ;
    assert(r1 * SIDE + c1 == r2 * SIDE + c2 ==> r1 == r2 && c1 == c2) by (nonlinear_arith)
        requires
            0 <= c1 < SIDE,
            0 <= c2 < SIDE,
    ;
}

/// The first physical pixel of a block lies in no other block.
proof fn lemma_block_origin(w: nat, h: nat, ps: nat, x: int, y: int, xx: int, yy: int)
    requires
        w * ps <= SIDE,
        h * ps <= SIDE,
        1 <= ps,
        0 <= x < w,
        0 <= y < h,
        0 <= xx < w,
        0 <= yy < h,
    ensures
        forall|dx: int, dy: int| 0 <= dx < ps && 0 <= dy < ps && #[trigger] phys_index(w, h, ps, x, y, dx, dy) == phys_index(w, h, ps, xx, yy, 0, 0)
            ==> xx == x && yy == y,
{
    assert forall|dx: int, dy: int| 0 <= dx < ps && 0 <= dy < ps && #[trigger] phys_index(w, h, ps, x, y, dx, dy) == phys_index(w, h, ps, xx, yy, 0, 0)
        implies xx == x && yy == y by {
        let ox = (SIDE - w * ps) / 2;
        let oy = (SIDE - h * ps) / 2;
        assert(x * ps + dx < w * ps && xx * ps < w * ps) by (nonlinear_arith)
            requires
                0 <= x < w,
                0 <= xx < w,
                0 <= dx < ps,
        ;
        assert(0 <= x * ps && 0 <= xx * ps && 0 <= y * ps && 0 <= yy * ps) by (nonlinear_arith)
            requires
                0 <= x,
                0 <= xx,
                0 <= y,
                0 <= yy,
        ;
        let c1 = x * ps + dx + ox;
        let c2 = xx * ps + ox;
        let r1 = y * ps + dy + oy;
        let r2 = yy * ps + oy;
        assert(r1 * SIDE + c1 == r2 * SIDE + c2 ==> r1 == r2 && c1 == c2) by (nonlinear_arith)
            requires
                0 <= c1 < SIDE,
                0 <= c2 < SIDE,
        ;
        assert(x * ps + dx == xx * ps && 0 <= dx < ps ==> x == xx) by (nonlinear_arith)
            requires
                1 <= ps,
        ;
        assert(y * ps + dy == yy * ps && 0 <= dy < ps ==> y == yy) by (nonlinear_arith)
            requires
                1 <= ps,
        ;
    }
}


/// A check of the smoothing filter: the corner (`.0`, `.1`), and the
/// columns and rows (`.2` and `.3`) of its two neighbours, in physical
/// coordinates of the movie's area.
pub type Check = (int, int, int, int);

/// The physical index of (`x`, `y`) of the area of a `w` by `h` movie at scale `ps`.
pub open spec fn area_at(w: nat, h: nat, ps: nat, x: int, y: int) -> int {
    (y + (SIDE - h * ps) / 2) * SIDE + x + (SIDE - w * ps) / 2
}

/// The checks for movie pixel (`x`, `y`), by corner: top left, top right,
/// bottom left, bottom right; each the corner, then (blocks of more than
/// three pixels) the two pixels beside it along the edges.
pub open spec fn pixel_check_parts(x: int, y: int, w: nat, h: nat, ps: nat) -> (Seq<Check>, Seq<Check>, Seq<Check>, Seq<Check>) {
    let left = x * ps;
    let top = y * ps;
    let right = (x + 1) * ps - 1;
    let bottom = (y + 1) * ps - 1;
    let big = ps > 3;
    let a = if x != 0 && y != 0 {
        if big {
            seq![(left, top, left - 1, top - 1), (left + 1, top, left - 1, top - 1), (left, top + 1, left - 1, top - 1)]
        } else {
            seq![(left, top, left - 1, top - 1)]
        }
    } else {
        seq![]
    };
    let b = if x != w - 1 && y != 0 {
        if big {
            seq![(right, top, right + 1, top - 1), (right - 1, top, right + 1, top - 1), (right, top + 1, right + 1, top - 1)]
        } else {
            seq![(right, top, right + 1, top - 1)]
        }
    } else {
        seq![]
    };
    let c = if x != 0 && y != h - 1 {
        if big {
            seq![(left, bottom, left - 1, bottom + 1), (left + 1, bottom, left - 1, bottom + 1), (left, bottom - 1, left - 1, bottom + 1)]
        } else {
            seq![(left, bottom, left - 1, bottom + 1)]
        }
    } else {
        seq![]
    };
    let d = if x != w - 1 && y != h - 1 {
        if big {
            seq![(right, bottom, right + 1, bottom + 1), (right - 1, bottom, right + 1, bottom + 1), (right, bottom - 1, right + 1, bottom + 1)]
        } else {
            seq![(right, bottom, right + 1, bottom + 1)]
        }
    } else {
        seq![]
    };
    (a, b, c, d)
}

/// The checks for movie pixel (`x`, `y`), in the order they are made.
pub open spec fn pixel_checks(x: int, y: int, w: nat, h: nat, ps: nat) -> Seq<Check> {
    let (a, b, c, d) = pixel_check_parts(x, y, w, h, ps);
    a + b + c + d
}

/// The checks for the first `n` movie pixels, row after row.
pub open spec fn checks_upto(w: nat, h: nat, ps: nat, n: nat) -> Seq<Check>
    decreases n,
{
    if n == 0 || w == 0 {
        seq![]
    } else {
        checks_upto(w, h, ps, (n - 1) as nat) + pixel_checks((n - 1) % (w as int), (n - 1) / (w as int), w, h, ps)
    }
}

/// All checks of one pass of the smoothing filter.
pub open spec fn smooth_checks(w: nat, h: nat, ps: nat) -> Seq<Check> {
    checks_upto(w, h, ps, w * h)
}

/// The check's two neighbours agree with each other and not with its corner, on first bits.
pub open spec fn fires(bytes: Seq<u8>, w: nat, h: nat, ps: nat, c: Check) -> bool {
    let v = phys(bytes, area_at(w, h, ps, c.0, c.1)) & 1;
    let vx = phys(bytes, area_at(w, h, ps, c.2, c.1)) & 1;
    let vy = phys(bytes, area_at(w, h, ps, c.0, c.3)) & 1;
    vx == vy && v != vx
}

/// How many of the checks `cs` fire with physical pixel `p` as their corner.
pub open spec fn flips(bytes: Seq<u8>, w: nat, h: nat, ps: nat, cs: Seq<Check>, p: int) -> nat
    decreases cs.len(),
{
    if cs.len() == 0 {
        0
    } else {
        flips(bytes, w, h, ps, cs.drop_last(), p) + if fires(bytes, w, h, ps, cs.last()) && area_at(
            w,
            h,
            ps,
            cs.last().0,
            cs.last().1,
        ) == p {
            1nat
        } else {
            0nat
        }
    }
}

/// The second bit after `n` flips.
pub open spec fn shade(n: nat) -> u8 {
    if n % 2 == 1 {
        2
    } else {
        0
    }
}

proof fn lemma_shade_bits(a: u8, n: nat)
    ensures
        (a ^ shade(n)) & 1 == a & 1,
        (a ^ shade(n)) ^ 2 == a ^ shade(n + 1),
{
    if n % 2 == 1 {
        assert((a ^ 2) & 1 == a & 1 && (a ^ 2) ^ 2 == a ^ 0) by (bit_vector);
    } else {
        assert((a ^ 0) & 1 == a & 1 && (a ^ 0) ^ 2 == a ^ 2) by (bit_vector);
    }
}

proof fn lemma_area_index(s: Screen, x: int, y: int)
    requires
        s.wf(),
        0 <= x < s.spec_width() * s.spec_pixel_size(),
        0 <= y < s.spec_height() * s.spec_pixel_size(),
    ensures
        0 <= s.area_index(x, y) < SIDE * SIDE,
        s.area_index(x, y) == area_at(s.spec_width(), s.spec_height(), s.spec_pixel_size(), x, y),
{
    let ox = (SIDE - s.spec_width() * s.spec_pixel_size()) / 2;
    let oy = (SIDE - s.spec_height() * s.spec_pixel_size()) / 2;
    assert(0 <= (y + oy) * SIDE + x + ox < SIDE * SIDE) by (nonlinear_arith)
        requires
            0 <= y + oy < SIDE,
            0 <= x + ox < SIDE,
    ;
}

/// A framebuffer showing a `width` by `height` movie at `pixel_size`
/// physical pixels per movie pixel.
pub struct Screen {
    bytes: Vec<u8>,
    width: u32,
    height: u32,
    pixel_size: u32,
}

/// The physical index of movie pixel (`x`, `y`)'s block at offset (`dx`, `dy`).
pub open spec fn phys_index(width: nat, height: nat, ps: nat, x: int, y: int, dx: int, dy: int) -> int {
    (y * ps + dy + (SIDE - height * ps) / 2) * SIDE + x * ps + dx + (SIDE - width * ps) / 2
}

impl Screen {
    pub closed spec fn wf(&self) -> bool {
        &&& self.bytes@.len() == BYTES
        &&& 1 <= self.width <= SIDE
        &&& 1 <= self.height <= SIDE
        &&& 1 <= self.pixel_size
        &&& self.width * self.pixel_size <= SIDE
        &&& self.height * self.pixel_size <= SIDE
    }

    pub closed spec fn bytes(&self) -> Seq<u8> {
        self.bytes@
    }

    pub closed spec fn spec_width(&self) -> nat {
        self.width as nat
    }

    pub closed spec fn spec_height(&self) -> nat {
        self.height as nat
    }

    pub closed spec fn spec_pixel_size(&self) -> nat {
        self.pixel_size as nat
    }

    /// The physical index of offset (`dx`, `dy`) in the block of movie pixel (`x`, `y`).
    pub open spec fn index_of(&self, x: int, y: int, dx: int, dy: int) -> int {
        phys_index(self.spec_width(), self.spec_height(), self.spec_pixel_size(), x, y, dx, dy)
    }

    /// The value shown for movie pixel (`x`, `y`): that of its block's first physical pixel.
    pub open spec fn pixel(&self, x: int, y: int) -> u8 {
        phys(self.bytes(), self.index_of(x, y, 0, 0))
    }

    /// A blank screen for a `width` by `height` movie, scaled by the largest
    /// factor that fits both ways.
    pub fn new(width: u32, height: u32) -> (r: Screen)
        requires
            1 <= width <= SIDE,
            1 <= height <= SIDE,
        ensures
            r.wf(),
            r.spec_width() == width,
            r.spec_height() == height,
            r.spec_pixel_size() == if SIDE / width < SIDE / height { SIDE / width } else { SIDE / height },
            forall|i: int| 0 <= i < BYTES ==> r.bytes()[i] == 0,
    {
        let by_width = SIDE / width;
        let by_height = SIDE / height;
        assert(SIDE / width >= 1 && SIDE / height >= 1) by (nonlinear_arith)
            requires
                1 <= width <= SIDE,
                1 <= height <= SIDE,
        ;
        let pixel_size = if by_width < by_height {
            by_width
        } else {
            by_height
        };
        assert(width * (SIDE / width) <= SIDE) by (nonlinear_arith)
            requires
                1 <= width,
        ;
        assert(height * (SIDE / height) <= SIDE) by (nonlinear_arith)
            requires
                1 <= height,
        ;
        assert(width * pixel_size <= width * (SIDE / width)) by (nonlinear_arith)
            requires
                pixel_size <= SIDE / width,
        ;
        assert(height * pixel_size <= height * (SIDE / height)) by (nonlinear_arith)
            requires
                pixel_size <= SIDE / height,
        ;
        Screen { bytes: vec![0u8; BYTES], width, height, pixel_size }
    }

    /// The byte and the shift of the two bits of physical pixel (`x`, `y`)
    /// of the movie's area, counted from the area's corner.
    pub fn locate(&self, x: u32, y: u32) -> (r: (usize, u32))
        requires
            self.wf(),
            x < self.spec_width() * self.spec_pixel_size(),
            y < self.spec_height() * self.spec_pixel_size(),
        ensures
            ({
                let p = (y + (SIDE - self.spec_height() * self.spec_pixel_size()) / 2) * SIDE + x + (SIDE
                    - self.spec_width() * self.spec_pixel_size()) / 2;
                &&& 0 <= p < SIDE * SIDE
                &&& r.0 == p / 4
                &&& r.1 == (p % 4) * 2
                &&& r.0 < BYTES
            }),
    {
        let offset_y = (SIDE - self.height * self.pixel_size) / 2;
        let offset_x = (SIDE - self.width * self.pixel_size) / 2;
        assert((y + offset_y) * SIDE + x + offset_x < SIDE * SIDE) by (nonlinear_arith)
            requires
                y + offset_y < SIDE,
                x + offset_x < SIDE,
        ;
        let pixel = (y + offset_y) * SIDE + x + offset_x;
        (pixel as usize / 4, (pixel % 4) * 2)
    }

    /// The two bits of physical pixel (`x`, `y`) of the movie's area.
    pub fn get_phys(&self, x: u32, y: u32) -> (r: u8)
        requires
            self.wf(),
            x < self.spec_width() * self.spec_pixel_size(),
            y < self.spec_height() * self.spec_pixel_size(),
        ensures
            r == phys(self.bytes(), (y + (SIDE - self.spec_height() * self.spec_pixel_size()) / 2) * SIDE + x
                + (SIDE - self.spec_width() * self.spec_pixel_size()) / 2),
    {
        let (i, s) = self.locate(x, y);
        (self.bytes[i] >> (s as u8)) & 3
    }

    pub proof fn lemma_index_bounds(&self, x: int, y: int)
        requires
            self.wf(),
            0 <= x < self.spec_width(),
            0 <= y < self.spec_height(),
        ensures
            0 <= self.index_of(x, y, 0, 0) < SIDE * SIDE,
    {
        lemma_index_injective(self.width as nat, self.height as nat, self.pixel_size as nat, x, y, 0, 0, 0, 0);
    }

    /// The value shown for movie pixel (`x`, `y`).
    pub fn get(&self, x: u32, y: u32) -> (r: u8)
        requires
            self.wf(),
            x < self.spec_width(),
            y < self.spec_height(),
        ensures
            r == self.pixel(x as int, y as int),
    {
        assert(x * self.pixel_size < self.width * self.pixel_size) by (nonlinear_arith)
            requires
                x < self.width,
                1 <= self.pixel_size,
        ;
        assert(y * self.pixel_size < self.height * self.pixel_size) by (nonlinear_arith)
            requires
                y < self.height,
                1 <= self.pixel_size,
        ;
        self.get_phys(x * self.pixel_size, y * self.pixel_size)
    }

    pub fn width(&self) -> (r: u32)
        ensures
            r == self.spec_width(),
    {
        self.width
    }

    pub fn height(&self) -> (r: u32)
        ensures
            r == self.spec_height(),
    {
        self.height
    }

    pub fn pixel_size(&self) -> (r: u32)
        ensures
            r == self.spec_pixel_size(),
    {
        self.pixel_size
    }

    /// The packed bytes, four physical pixels to a byte.
    pub fn as_bytes(&self) -> (r: &Vec<u8>)
        ensures
            r@ == self.bytes(),
    {
        &self.bytes
    }

    /// Paints movie pixel (`x`, `y`) with value `v`: every physical pixel of its block.
    pub fn set(&mut self, x: u32, y: u32, v: u8)
        requires
            old(self).wf(),
            x < old(self).spec_width(),
            y < old(self).spec_height(),
            v < 4,
        ensures
            final(self).wf(),
            final(self).spec_width() == old(self).spec_width(),
            final(self).spec_height() == old(self).spec_height(),
            final(self).spec_pixel_size() == old(self).spec_pixel_size(),
            forall|dx: int, dy: int| 0 <= dx < old(self).spec_pixel_size() && 0 <= dy < old(self).spec_pixel_size()
                ==> phys(final(self).bytes(), #[trigger] old(self).index_of(x as int, y as int, dx, dy)) == v,
            forall|p: int| 0 <= p < SIDE * SIDE && !(exists|dx: int, dy: int| 0 <= dx < old(self).spec_pixel_size() && 0 <= dy < old(self).spec_pixel_size()
                && p == #[trigger] old(self).index_of(x as int, y as int, dx, dy)) ==> phys(final(self).bytes(), p) == phys(old(self).bytes(), p),
            forall|xx: int, yy: int| 0 <= xx < old(self).spec_width() && 0 <= yy < old(self).spec_height() ==> #[trigger] final(self).pixel(xx, yy)
                == if xx == x && yy == y { v } else { old(self).pixel(xx, yy) },
    {
        self.paint(x, y, v, false);
        assert forall|xx: int, yy: int| 0 <= xx < old(self).spec_width() && 0 <= yy < old(self).spec_height() implies #[trigger] self.pixel(xx, yy)
            == if xx == x && yy == y { v } else { old(self).pixel(xx, yy) } by {
            let o = old(self).index_of(xx, yy, 0, 0);
            lemma_block_origin(self.width as nat, self.height as nat, self.pixel_size as nat, x as int, y as int, xx, yy);
            if xx == x && yy == y {
                assert(o == old(self).index_of(x as int, y as int, 0, 0));
            } else {
                lemma_index_injective(self.width as nat, self.height as nat, self.pixel_size as nat, xx, yy, 0, 0, 0, 0);
            }
        }
    }

    /// Flips with `v` the bits of every physical pixel of movie pixel (`x`, `y`)'s block.
    pub fn xor(&mut self, x: u32, y: u32, v: u8)
        requires
            old(self).wf(),
            x < old(self).spec_width(),
            y < old(self).spec_height(),
            v < 4,
        ensures
            final(self).wf(),
            final(self).spec_width() == old(self).spec_width(),
            final(self).spec_height() == old(self).spec_height(),
            final(self).spec_pixel_size() == old(self).spec_pixel_size(),
            forall|dx: int, dy: int| 0 <= dx < old(self).spec_pixel_size() && 0 <= dy < old(self).spec_pixel_size()
                ==> phys(final(self).bytes(), #[trigger] old(self).index_of(x as int, y as int, dx, dy))
                == phys(old(self).bytes(), old(self).index_of(x as int, y as int, dx, dy)) ^ v,
            forall|p: int| 0 <= p < SIDE * SIDE && !(exists|dx: int, dy: int| 0 <= dx < old(self).spec_pixel_size() && 0 <= dy < old(self).spec_pixel_size()
                && p == #[trigger] old(self).index_of(x as int, y as int, dx, dy)) ==> phys(final(self).bytes(), p) == phys(old(self).bytes(), p),
    {
        self.paint(x, y, v, true);
    }

    /// Sets (or, with `flip`, flips with `v`) the physical pixels of a block.
    fn paint(&mut self, x: u32, y: u32, v: u8, flip: bool)
        requires
            old(self).wf(),
            x < old(self).spec_width(),
            y < old(self).spec_height(),
            v < 4,
        ensures
            final(self).wf(),
            final(self).spec_width() == old(self).spec_width(),
            final(self).spec_height() == old(self).spec_height(),
            final(self).spec_pixel_size() == old(self).spec_pixel_size(),
            forall|dx: int, dy: int| 0 <= dx < old(self).spec_pixel_size() && 0 <= dy < old(self).spec_pixel_size()
                ==> phys(final(self).bytes(), #[trigger] old(self).index_of(x as int, y as int, dx, dy))
                == if flip { phys(old(self).bytes(), old(self).index_of(x as int, y as int, dx, dy)) ^ v } else { v },
            forall|p: int| 0 <= p < SIDE * SIDE && !(exists|dx: int, dy: int| 0 <= dx < old(self).spec_pixel_size() && 0 <= dy < old(self).spec_pixel_size()
                && p == #[trigger] old(self).index_of(x as int, y as int, dx, dy)) ==> phys(final(self).bytes(), p) == phys(old(self).bytes(), p),
    {
        let ps = self.pixel_size;
        let ghost start = self.bytes@;
        assert((x + 1) * ps <= self.width * ps) by (nonlinear_arith)
            requires
                x < self.width,
        ;
        assert((y + 1) * ps <= self.height * ps) by (nonlinear_arith)
            requires
                y < self.height,
        ;
        let mut dy: u32 = 0;
        while dy < ps
            invariant
                self.wf(),
                ps == self.pixel_size,
                self.width == old(self).width,
                self.height == old(self).height,
                self.pixel_size == old(self).pixel_size,
                start == old(self).bytes@,
                x < self.width,
                y < self.height,
                (x + 1) * ps <= self.width * ps,
                (y + 1) * ps <= self.height * ps,
                v < 4,
                dy <= ps,
                forall|ddx: int, ddy: int| 0 <= ddx < ps && 0 <= ddy < dy
                    ==> phys(self.bytes@, #[trigger] old(self).index_of(x as int, y as int, ddx, ddy))
                    == if flip { phys(start, old(self).index_of(x as int, y as int, ddx, ddy)) ^ v } else { v },
                forall|p: int| 0 <= p < SIDE * SIDE && !(exists|ddx: int, ddy: int| 0 <= ddx < ps && 0 <= ddy < dy
                    && p == #[trigger] old(self).index_of(x as int, y as int, ddx, ddy)) ==> phys(self.bytes@, p) == phys(start, p),
            decreases ps - dy,
        {
            let mut dx: u32 = 0;
            while dx < ps
                invariant
                    self.wf(),
                    ps == self.pixel_size,
                    self.width == old(self).width,
                    self.height == old(self).height,
                    self.pixel_size == old(self).pixel_size,
                    start == old(self).bytes@,
                    x < self.width,
                    y < self.height,
                    (x + 1) * ps <= self.width * ps,
                    (y + 1) * ps <= self.height * ps,
                    v < 4,
                    dy < ps,
                    dx <= ps,
                    forall|ddx: int, ddy: int| 0 <= ddx < ps && 0 <= ddy < dy || (ddy == dy && 0 <= ddx < dx)
                        ==> phys(self.bytes@, #[trigger] old(self).index_of(x as int, y as int, ddx, ddy))
                        == if flip { phys(start, old(self).index_of(x as int, y as int, ddx, ddy)) ^ v } else { v },
                    forall|p: int| 0 <= p < SIDE * SIDE && !(exists|ddx: int, ddy: int| (0 <= ddx < ps && 0 <= ddy < dy || (ddy == dy && 0 <= ddx < dx))
                        && p == #[trigger] old(self).index_of(x as int, y as int, ddx, ddy)) ==> phys(self.bytes@, p) == phys(start, p),
                decreases ps - dx,
            {
                assert(x * ps + dx < self.width * ps) by (nonlinear_arith)
                    requires
                        dx < ps,
                        (x + 1) * ps <= self.width * ps,
                ;
                assert(y * ps + dy < self.height * ps) by (nonlinear_arith)
                    requires
                        dy < ps,
                        (y + 1) * ps <= self.height * ps,
                ;
                let px = x * ps + dx;
                let py = y * ps + dy;
                let (i, s) = self.locate(px, py);
                let ghost target = old(self).index_of(x as int, y as int, dx as int, dy as int);
                let ghost before = self.bytes@;
                assert(target == (py + (SIDE - self.height * ps) / 2) * SIDE + px + (SIDE - self.width * ps) / 2);
                let b = self.bytes[i];
                let nb = if flip {
                    b ^ (v << (s as u8))
                } else {
                    (b & !(3u8 << (s as u8))) | (v << (s as u8))
                };
                self.bytes.set(i, nb);
                proof {
                    assert forall|p: int| 0 <= p < SIDE * SIDE implies phys(self.bytes@, p) == if p == target {
                        if flip { phys(before, p) ^ v } else { v }
                    } else {
                        phys(before, p)
                    } by {
                        let t = (p % 4) as u8;
                        let slot = (target % 4) as u8;
                        assert(s as u8 == 2 * slot);
                        assert(((p % 4) * 2) as u8 == 2 * t);
                        if p / 4 == i {
                            if flip {
                                lemma_xor_slot(b, slot, v, t);
                            } else {
                                lemma_write_slot(b, slot, v, t);
                            }
                            if p != target {
                                assert(t != slot);
                            }
                        } else {
                            assert(p != target);
                        }
                    }
                }
                assert forall|ddx: int, ddy: int| 0 <= ddx < ps && 0 <= ddy < dy || (ddy == dy && 0 <= ddx <= dx) implies
                    phys(self.bytes@, #[trigger] old(self).index_of(x as int, y as int, ddx, ddy))
                    == if flip { phys(start, old(self).index_of(x as int, y as int, ddx, ddy)) ^ v } else { v } by {
                    lemma_index_injective(self.width as nat, self.height as nat, ps as nat, x as int, y as int, ddx, ddy, dx as int, dy as int);
                    if ddx == dx && ddy == dy {
                        assert(!(exists|ddx: int, ddy: int| (0 <= ddx < ps && 0 <= ddy < dy || (ddy == dy && 0 <= ddx < dx))
                            && target == #[trigger] old(self).index_of(x as int, y as int, ddx, ddy))) by {
                            assert forall|ex: int, ey: int| (0 <= ex < ps && 0 <= ey < dy || (ey == dy && 0 <= ex < dx)) implies
                                target != #[trigger] old(self).index_of(x as int, y as int, ex, ey) by {
                                lemma_index_injective(self.width as nat, self.height as nat, ps as nat, x as int, y as int, ex, ey, dx as int, dy as int);
                            }
                        }
                    }
                }
                assert forall|p: int| 0 <= p < SIDE * SIDE && !(exists|ddx: int, ddy: int| (0 <= ddx < ps && 0 <= ddy < dy || (ddy == dy && 0 <= ddx <= dx))
                    && p == #[trigger] old(self).index_of(x as int, y as int, ddx, ddy)) implies phys(self.bytes@, p) == phys(start, p) by {
                    assert(p != old(self).index_of(x as int, y as int, dx as int, dy as int));
                    assert(!(exists|ddx: int, ddy: int| (0 <= ddx < ps && 0 <= ddy < dy || (ddy == dy && 0 <= ddx < dx))
                        && p == #[trigger] old(self).index_of(x as int, y as int, ddx, ddy)));
                }
                dx = dx + 1;
            }
            dy = dy + 1;
        }
    }


    /// The physical index of (`x`, `y`) in the movie's area.
    pub open spec fn area_index(&self, x: int, y: int) -> int {
        (y + (SIDE - self.spec_height() * self.spec_pixel_size()) / 2) * SIDE + x + (SIDE
            - self.spec_width() * self.spec_pixel_size()) / 2
    }

    /// Shades physical pixel (`tx`, `ty`) when its neighbours (`nx`, `ty`)
    /// and (`tx`, `ny`) agree with each other and not with it: flips its second bit.
    fn do_smooth(&mut self, tx: u32, ty: u32, nx: u32, ny: u32)
        requires
            old(self).wf(),
            tx < old(self).spec_width() * old(self).spec_pixel_size(),
            nx < old(self).spec_width() * old(self).spec_pixel_size(),
            ty < old(self).spec_height() * old(self).spec_pixel_size(),
            ny < old(self).spec_height() * old(self).spec_pixel_size(),
        ensures
            final(self).wf(),
            final(self).spec_width() == old(self).spec_width(),
            final(self).spec_height() == old(self).spec_height(),
            final(self).spec_pixel_size() == old(self).spec_pixel_size(),
            ({
                let t = old(self).area_index(tx as int, ty as int);
                let v = phys(old(self).bytes(), t) & 1;
                let vx = phys(old(self).bytes(), old(self).area_index(nx as int, ty as int)) & 1;
                let vy = phys(old(self).bytes(), old(self).area_index(tx as int, ny as int)) & 1;
                forall|p: int| 0 <= p < SIDE * SIDE ==> #[trigger] phys(final(self).bytes(), p) == if p == t && vx == vy && v != vx {
                    phys(old(self).bytes(), p) ^ 2
                } else {
                    phys(old(self).bytes(), p)
                }
            }),
    {
        let (i, s) = self.locate(tx, ty);
        let v = self.get_phys(tx, ty) & 1;
        let vx = self.get_phys(nx, ty) & 1;
        let vy = self.get_phys(tx, ny) & 1;
        if vx == vy && v != vx {
            let ghost before = self.bytes@;
            let ghost t = self.area_index(tx as int, ty as int);
            let b = self.bytes[i];
            self.bytes.set(i, b ^ (2u8 << (s as u8)));
            assert forall|p: int| 0 <= p < SIDE * SIDE implies #[trigger] phys(self.bytes@, p) == if p == t {
                phys(before, p) ^ 2
            } else {
                phys(before, p)
            } by {
                let tt = (p % 4) as u8;
                let slot = (t % 4) as u8;
                assert(s as u8 == 2 * slot);
                assert(((p % 4) * 2) as u8 == 2 * tt);
                if p / 4 == i {
                    lemma_xor_slot(b, slot, 2, tt);
                    if p != t {
                        assert(tt != slot);
                    }
                }
            }
        }
    }

    /// Shades, on every block edge inside the movie, the pixels at the
    /// corners where the two neighbours across the edges agree with each
    /// other but not with the corner: each check of `smooth_checks` whose
    /// condition holds (on first bits, which the pass never changes) flips
    /// the second bit of its corner.
    pub fn apply_smooth_filter(&mut self)
        requires
            old(self).wf(),
        ensures
            final(self).wf(),
            final(self).spec_width() == old(self).spec_width(),
            final(self).spec_height() == old(self).spec_height(),
            final(self).spec_pixel_size() == old(self).spec_pixel_size(),
            forall|p: int| 0 <= p < SIDE * SIDE ==> #[trigger] phys(final(self).bytes(), p) == phys(old(self).bytes(), p) ^ shade(
                flips(
                    old(self).bytes(),
                    old(self).spec_width(),
                    old(self).spec_height(),
                    old(self).spec_pixel_size(),
                    smooth_checks(old(self).spec_width(), old(self).spec_height(), old(self).spec_pixel_size()),
                    p,
                ),
            ),
            forall|p: int| 0 <= p < SIDE * SIDE ==> #[trigger] phys(final(self).bytes(), p) & 1 == phys(old(self).bytes(), p) & 1,
    {
        let w = self.width;
        let h = self.height;
        let ps = self.pixel_size;
        let ghost orig = self.bytes@;
        let ghost gw = w as nat;
        let ghost gh = h as nat;
        let ghost gp = ps as nat;
        let ghost mut done: Seq<Check> = Seq::empty();
        assert forall|p: int| 0 <= p < SIDE * SIDE implies #[trigger] phys(self.bytes(), p) == phys(orig, p) ^ shade(flips(orig, gw, gh, gp, done, p)) by {
            let a = phys(orig, p);
            assert(a ^ 0 == a) by (bit_vector);
        }
        let mut y: u32 = 0;
        while y < h
            invariant
                self.wf(),
                w == self.width == old(self).width,
                h == self.height == old(self).height,
                ps == self.pixel_size == old(self).pixel_size,
                orig == old(self).bytes@,
                gw == w,
                gh == h,
                gp == ps,
                y <= h,
                done == checks_upto(gw, gh, gp, (y * w) as nat),
                forall|p: int| 0 <= p < SIDE * SIDE ==> #[trigger] phys(self.bytes(), p) == phys(orig, p) ^ shade(flips(orig, gw, gh, gp, done, p)),
            decreases h - y,
        {
            let mut x: u32 = 0;
            while x < w
                invariant
                    self.wf(),
                    w == self.width == old(self).width,
                    h == self.height == old(self).height,
                    ps == self.pixel_size == old(self).pixel_size,
                    orig == old(self).bytes@,
                    gw == w,
                    gh == h,
                    gp == ps,
                    y < h,
                    x <= w,
                    done == checks_upto(gw, gh, gp, (y * w + x) as nat),
                    forall|p: int| 0 <= p < SIDE * SIDE ==> #[trigger] phys(self.bytes(), p) == phys(orig, p) ^ shade(flips(orig, gw, gh, gp, done, p)),
                decreases w - x,
            {
                let ghost base = done;
                self.smooth_pixel(x, y, Ghost(orig), Ghost(done));
                proof {
                    let k = (y * w + x) as nat;
                    vstd::arithmetic::div_mod::lemma_fundamental_div_mod_converse(k as int, w as int, y as int, x as int);
                    done = base + pixel_checks(x as int, y as int, gw, gh, gp);
                    assert(checks_upto(gw, gh, gp, k + 1) == base + pixel_checks(x as int, y as int, gw, gh, gp));
                    assert((y * w + x + 1) as nat == k + 1);
                }
                x = x + 1;
            }
            assert((y + 1) * w == y * w + w) by (nonlinear_arith);
            y = y + 1;
        }
        assert(y * w == w * h) by (nonlinear_arith)
            requires
                y == h,
        ;
        assert forall|p: int| 0 <= p < SIDE * SIDE implies #[trigger] phys(self.bytes(), p) & 1 == phys(old(self).bytes(), p) & 1 by {
            lemma_shade_bits(phys(orig, p), flips(orig, gw, gh, gp, done, p));
        }
    }

    /// The checks of movie pixel (`x`, `y`), during a pass that started
    /// from `orig` and has made the checks `done`.
    fn smooth_pixel(&mut self, x: u32, y: u32, orig: Ghost<Seq<u8>>, done: Ghost<Seq<Check>>)
        requires
            old(self).wf(),
            x < old(self).spec_width(),
            y < old(self).spec_height(),
            forall|p: int| 0 <= p < SIDE * SIDE ==> #[trigger] phys(old(self).bytes(), p) == phys(orig@, p) ^ shade(
                flips(orig@, old(self).spec_width(), old(self).spec_height(), old(self).spec_pixel_size(), done@, p),
            ),
        ensures
            final(self).wf(),
            final(self).width == old(self).width,
            final(self).height == old(self).height,
            final(self).pixel_size == old(self).pixel_size,
            forall|p: int| 0 <= p < SIDE * SIDE ==> #[trigger] phys(final(self).bytes(), p) == phys(orig@, p) ^ shade(
                flips(
                    orig@,
                    old(self).spec_width(),
                    old(self).spec_height(),
                    old(self).spec_pixel_size(),
                    done@ + pixel_checks(x as int, y as int, old(self).spec_width(), old(self).spec_height(), old(self).spec_pixel_size()),
                    p,
                ),
            ),
    {
        let w = self.width;
        let h = self.height;
        let ps = self.pixel_size;
        let ghost orig = orig@;
        let ghost gw = w as nat;
        let ghost gh = h as nat;
        let ghost gp = ps as nat;
        assert((x + 1) * ps <= w * ps && (y + 1) * ps <= h * ps) by (nonlinear_arith)
            requires
                x < w,
                y < h,
        ;
        assert((x + 1) * ps == x * ps + ps && (y + 1) * ps == y * ps + ps) by (nonlinear_arith);
        assert(x >= 1 ==> x * ps >= ps) by (nonlinear_arith);
        assert(y >= 1 ==> y * ps >= ps) by (nonlinear_arith);
        assert(x + 1 < w ==> (x + 1) * ps + ps <= w * ps) by (nonlinear_arith);
        assert(y + 1 < h ==> (y + 1) * ps + ps <= h * ps) by (nonlinear_arith);
        let ghost base = done@;
        let ghost mut done = done@;
        let left = x * ps;
        let top = y * ps;
        let right = (x + 1) * ps - 1;
        let bottom = (y + 1) * ps - 1;
        if x != 0 && y != 0 {
            self.smooth_step(left, top, left - 1, top - 1, Ghost(orig), Ghost(done));
            proof { done = done.push((left as int, top as int, left - 1, top - 1)); }
            if ps > 3 {
                self.smooth_step(left + 1, top, left - 1, top - 1, Ghost(orig), Ghost(done));
                proof { done = done.push((left + 1, top as int, left - 1, top - 1)); }
                self.smooth_step(left, top + 1, left - 1, top - 1, Ghost(orig), Ghost(done));
                proof { done = done.push((left as int, top + 1, left - 1, top - 1)); }
            }
        }
        let ghost after_a = done;
        if x != w - 1 && y != 0 {
            self.smooth_step(right, top, right + 1, top - 1, Ghost(orig), Ghost(done));
            proof { done = done.push((right as int, top as int, right + 1, top - 1)); }
            if ps > 3 {
                self.smooth_step(right - 1, top, right + 1, top - 1, Ghost(orig), Ghost(done));
                proof { done = done.push((right - 1, top as int, right + 1, top - 1)); }
                self.smooth_step(right, top + 1, right + 1, top - 1, Ghost(orig), Ghost(done));
                proof { done = done.push((right as int, top + 1, right + 1, top - 1)); }
            }
        }
        let ghost after_b = done;
        if x != 0 && y != h - 1 {
            self.smooth_step(left, bottom, left - 1, bottom + 1, Ghost(orig), Ghost(done));
            proof { done = done.push((left as int, bottom as int, left - 1, bottom + 1)); }
            if ps > 3 {
                self.smooth_step(left + 1, bottom, left - 1, bottom + 1, Ghost(orig), Ghost(done));
                proof { done = done.push((left + 1, bottom as int, left - 1, bottom + 1)); }
                self.smooth_step(left, bottom - 1, left - 1, bottom + 1, Ghost(orig), Ghost(done));
                proof { done = done.push((left as int, bottom - 1, left - 1, bottom + 1)); }
            }
        }
        let ghost after_c = done;
        if x != w - 1 && y != h - 1 {
            self.smooth_step(right, bottom, right + 1, bottom + 1, Ghost(orig), Ghost(done));
            proof { done = done.push((right as int, bottom as int, right + 1, bottom + 1)); }
            if ps > 3 {
                self.smooth_step(right - 1, bottom, right + 1, bottom + 1, Ghost(orig), Ghost(done));
                proof { done = done.push((right - 1, bottom as int, right + 1, bottom + 1)); }
                self.smooth_step(right, bottom - 1, right + 1, bottom + 1, Ghost(orig), Ghost(done));
                proof { done = done.push((right as int, bottom - 1, right + 1, bottom + 1)); }
            }
        }
        proof {
            let (pa, pb, pc, pd) = pixel_check_parts(x as int, y as int, gw, gh, gp);
            assert(after_a =~= base + pa);
            assert(after_b =~= base + pa + pb);
            assert(after_c =~= base + pa + pb + pc);
            assert(done =~= base + pa + pb + pc + pd);
            assert(base + pa + pb + pc + pd =~= base + pixel_checks(x as int, y as int, gw, gh, gp));
        }
    }

    /// `do_smooth` on the check (`tx`, `ty`, `nx`, `ny`), during a pass that
    /// started from `orig` and has made the checks `done`.
    fn smooth_step(&mut self, tx: u32, ty: u32, nx: u32, ny: u32, orig: Ghost<Seq<u8>>, done: Ghost<Seq<Check>>)
        requires
            old(self).wf(),
            tx < old(self).spec_width() * old(self).spec_pixel_size(),
            nx < old(self).spec_width() * old(self).spec_pixel_size(),
            ty < old(self).spec_height() * old(self).spec_pixel_size(),
            ny < old(self).spec_height() * old(self).spec_pixel_size(),
            forall|p: int| 0 <= p < SIDE * SIDE ==> #[trigger] phys(old(self).bytes(), p) == phys(orig@, p) ^ shade(
                flips(orig@, old(self).spec_width(), old(self).spec_height(), old(self).spec_pixel_size(), done@, p),
            ),
        ensures
            final(self).wf(),
            final(self).width == old(self).width,
            final(self).height == old(self).height,
            final(self).pixel_size == old(self).pixel_size,
            forall|p: int| 0 <= p < SIDE * SIDE ==> #[trigger] phys(final(self).bytes(), p) == phys(orig@, p) ^ shade(
                flips(
                    orig@,
                    old(self).spec_width(),
                    old(self).spec_height(),
                    old(self).spec_pixel_size(),
                    done@.push((tx as int, ty as int, nx as int, ny as int)),
                    p,
                ),
            ),
    {
        let ghost w = self.spec_width();
        let ghost h = self.spec_height();
        let ghost ps = self.spec_pixel_size();
        let ghost c: Check = (tx as int, ty as int, nx as int, ny as int);
        let ghost cur = self.bytes@;
        proof {
            lemma_area_index(*self, tx as int, ty as int);
            lemma_area_index(*self, nx as int, ty as int);
            lemma_area_index(*self, tx as int, ny as int);
            let q1 = self.area_index(tx as int, ty as int);
            let q2 = self.area_index(nx as int, ty as int);
            let q3 = self.area_index(tx as int, ny as int);
            lemma_shade_bits(phys(orig@, q1), flips(orig@, w, h, ps, done@, q1));
            lemma_shade_bits(phys(orig@, q2), flips(orig@, w, h, ps, done@, q2));
            lemma_shade_bits(phys(orig@, q3), flips(orig@, w, h, ps, done@, q3));
        }
        self.do_smooth(tx, ty, nx, ny);
        proof {
            let all = done@.push(c);
            assert(all.drop_last() =~= done@);
            assert forall|p: int| 0 <= p < SIDE * SIDE implies #[trigger] phys(self.bytes(), p) == phys(orig@, p) ^ shade(
                flips(orig@, w, h, ps, all, p),
            ) by {
                lemma_shade_bits(phys(orig@, p), flips(orig@, w, h, ps, done@, p));
            }
        }
    }

    /// Clears the second bit of every physical pixel: the shading that the
    /// smoothing filter added.
    pub fn undo_smooth_filter(&mut self)
        requires
            old(self).wf(),
        ensures
            final(self).wf(),
            final(self).spec_width() == old(self).spec_width(),
            final(self).spec_height() == old(self).spec_height(),
            final(self).spec_pixel_size() == old(self).spec_pixel_size(),
            forall|p: int| 0 <= p < SIDE * SIDE ==> #[trigger] phys(final(self).bytes(), p) == phys(old(self).bytes(), p) & 1,
    {
        let mut i: usize = 0;
        while i < BYTES
            invariant
                self.wf(),
                self.width == old(self).width,
                self.height == old(self).height,
                self.pixel_size == old(self).pixel_size,
                i <= BYTES,
                forall|k: int| 0 <= k < i ==> #[trigger] self.bytes@[k] == old(self).bytes@[k] & 0x55,
                forall|k: int| i <= k < BYTES ==> #[trigger] self.bytes@[k] == old(self).bytes@[k],
            decreases BYTES - i,
        {
            let b = self.bytes[i];
            self.bytes.set(i, b & 0x55);
            i = i + 1;
        }
        assert forall|p: int| 0 <= p < SIDE * SIDE implies #[trigger] phys(self.bytes@, p) == phys(old(self).bytes@, p) & 1 by {
            let b = old(self).bytes@[p / 4];
            let t = (p % 4) as u8;
            assert(((p % 4) * 2) as u8 == 2 * t);
            assert(t < 4 ==> (((b & 0x55) >> (2 * t)) & 3) == ((b >> (2 * t)) & 3) & 1) by (bit_vector);
        }
    }
}

} // verus!
