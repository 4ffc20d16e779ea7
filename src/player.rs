//! Playback: a decoder that, tick by tick, replays the bitstream onto a
//! packed framebuffer with no allocation but the framebuffer itself.
use vstd::prelude::*;
use crate::bitstream::{BitStream, bytes_bits, bits_value, lemma_bytes_bits_len, lemma_bits_value_bound};
use crate::intcode::fib_decode;
use vstd::arithmetic::power2::{lemma2_to64, lemma_pow2_strictly_increases};
use crate::huffman::{huffman_index, walk};
use crate::frame::get_xy;
use crate::screen::{Screen, SIDE, BYTES};
use crate::frame::Rect;
use crate::runs::unchanged_kind;
use crate::replay::{
    Picture, Replayed, agree, paint_items, paint_runs, paint_span, runs_total, scan_at, screen_picture,
    lemma_paint_runs_push, lemma_paint_runs_agree,
};
use crate::screen::{phys, phys_index, smooth_checks, flips, shade};

verus! {

/// Display ticks per second; the phase accumulator counts in these.
pub const TICKS: u32 = 60;

/// The read-only tables that a movie is played from.
pub struct MovieTables<'a> {
    pub movie: &'a [u8],
    pub runs_tree: &'a [u8],
    pub runs_data: &'a [u8],
    pub run_value_bits: u32,
    pub order_tree: &'a [u8],
    pub order_values: &'a [u32],
    pub count_tree: &'a [u8],
    pub count_values: &'a [u32],
    pub width: u32,
    pub height: u32,
    pub bpp: u32,
    pub frame_count: u32,
    pub frame_rate: u32,
}

/// The tables fit the decoder: a movie of at most the display's size, a
/// palette of at most four colours, run values of at most 32 bits.
pub open spec fn tables_ok(t: MovieTables) -> bool {
    &&& 1 <= t.width <= SIDE
    &&& 1 <= t.height <= SIDE
    &&& t.bpp <= 2
    &&& t.run_value_bits <= 32
}

/// Entry `idx` of a table of values packed `bits` bits each, when it is
/// there and its position fits in a `usize`.
pub open spec fn table_value(data: Seq<u8>, idx: nat, bits: nat) -> Option<nat> {
    if idx <= usize::MAX && idx * bits <= usize::MAX && idx * bits + bits <= 8 * data.len() {
        Some(bits_value(bytes_bits(data).subrange((idx * bits) as int, (idx * bits + bits) as int)))
    } else {
        None
    }
}

/// Reads runs from `data` until they cover `remaining` pixels: for each, a
/// word of the run code gives an entry of the run table, whose value is the
/// kind plus the length times one more than the palette size.
pub open spec fn parse_runs(data: Seq<bool>, t: MovieTables, remaining: nat) -> Option<(Seq<(nat, nat)>, Seq<bool>)>
    decreases remaining,
{
    if remaining == 0 {
        Some((seq![], data))
    } else {
        match walk(bytes_bits(t.runs_tree@), data, 0) {
            None => None,
            Some((idx, rest)) => match table_value(t.runs_data@, idx, t.run_value_bits as nat) {
                None => None,
                Some(v) => {
                    let p = unchanged_kind(t.bpp) as nat + 1;
                    let kind = v % p;
                    let len = v / p;
                    if len == 0 || len > remaining {
                        None
                    } else {
                        match parse_runs(rest, t, (remaining - len) as nat) {
                            None => None,
                            Some((runs, r2)) => Some((seq![(kind, len)] + runs, r2)),
                        }
                    }
                },
            },
        }
    }
}

/// Reads the scan order of a `w` by `h` rectangle: none is written for a
/// one pixel wide or tall one (order 0); otherwise a word of the order code.
pub open spec fn parse_order(data: Seq<bool>, t: MovieTables, w: nat, h: nat) -> Option<(int, Seq<bool>)> {
    if w == 1 || h == 1 {
        Some((0, data))
    } else {
        match walk(bytes_bits(t.order_tree@), data, 0) {
            None => None,
            Some((i, rest)) => if i < t.order_values@.len() && t.order_values@[i as int] < 4 {
                Some((t.order_values@[i as int] as int, rest))
            } else {
                None
            },
        }
    }
}

/// Reads a rectangle's scan order and runs.
pub open spec fn parse_rect(data: Seq<bool>, t: MovieTables, w: nat, h: nat) -> Option<(int, Seq<(nat, nat)>, Seq<bool>)> {
    match parse_order(data, t, w, h) {
        None => None,
        Some((o, r1)) => match parse_runs(r1, t, w * h) {
            None => None,
            Some((runs, r2)) => Some((o, runs, r2)),
        },
    }
}

/// Reads `count` rectangles, the one before ending just before index `next`:
/// each a step to its corner and a span to its far corner in the integer
/// code, then its scan order and runs.
pub open spec fn parse_rects(data: Seq<bool>, t: MovieTables, count: nat, next: nat) -> Option<(Seq<Replayed>, Seq<bool>)>
    decreases count,
{
    if count == 0 {
        Some((seq![], data))
    } else {
        match fib_decode(data) {
            None => None,
            Some((step, n1)) => {
                let d1 = data.skip(n1 as int);
                match fib_decode(d1) {
                    None => None,
                    Some((span, n2)) => {
                        let d2 = d1.skip(n2 as int);
                        let w = t.width as nat;
                        let area = w * t.height;
                        if step > u32::MAX || span > u32::MAX || step == 0 || span == 0 || step + next > area || step - 1 + next + span
                            > area {
                            None
                        } else {
                            let i = (next + step - 1) as nat;
                            let e = (i + span - 1) as nat;
                            let x = i % w;
                            let y = i / w;
                            let tx = e % w;
                            let ty = e / w;
                            if tx < x || ty < y {
                                None
                            } else {
                                let rect = Rect { x: x as u32, y: y as u32, w: (tx - x + 1) as u32, h: (ty - y + 1) as u32 };
                                match parse_rect(d2, t, rect.w as nat, rect.h as nat) {
                                    None => None,
                                    Some((o, runs, d3)) => match parse_rects(d3, t, (count - 1) as nat, i + 1) {
                                        None => None,
                                        Some((items, d4)) => Some((seq![(rect, o, runs)] + items, d4)),
                                    },
                                }
                            }
                        }
                    },
                }
            },
        }
    }
}

/// Reads a frame record: a word of the count code, then that many rectangles.
pub open spec fn parse_frame(data: Seq<bool>, t: MovieTables) -> Option<(Seq<Replayed>, Seq<bool>)> {
    match walk(bytes_bits(t.count_tree@), data, 0) {
        None => None,
        Some((c, rest)) => if c < t.count_values@.len() {
            parse_rects(rest, t, t.count_values@[c as int] as nat, 0)
        } else {
            None
        },
    }
}

/// Reads `d` frame records one after the other: the bits left after them.
pub open spec fn parse_frames(data: Seq<bool>, t: MovieTables, d: nat) -> Option<Seq<bool>>
    decreases d,
{
    if d == 0 {
        Some(data)
    } else {
        match parse_frames(data, t, (d - 1) as nat) {
            None => None,
            Some(s) => match parse_frame(s, t) {
                None => None,
                Some((_, rest)) => Some(rest),
            },
        }
    }
}

proof fn lemma_frames_fail(data: Seq<bool>, t: MovieTables, j: nat, d: nat)
    requires
        j <= d,
        parse_frames(data, t, j) is None,
    ensures
        parse_frames(data, t, d) is None,
    decreases d,
{
    if d > j {
        lemma_frames_fail(data, t, j, (d - 1) as nat);
    }
}

proof fn lemma_skip_bytes(s: Seq<u8>, k: int)
    requires
        0 <= k <= s.len(),
    ensures
        bytes_bits(s.subrange(k, s.len() as int)) == bytes_bits(s).skip(8 * k),
    decreases k,
{
    lemma_bytes_bits_len(s);
    if k == 0 {
        assert(s.subrange(0, s.len() as int) =~= s);
        assert(bytes_bits(s).skip(0) =~= bytes_bits(s));
    } else {
        let t = s.drop_first();
        lemma_skip_bytes(t, k - 1);
        assert(t.subrange(k - 1, t.len() as int) =~= s.subrange(k, s.len() as int));
        lemma_bytes_bits_len(t);
        assert(bytes_bits(s) == crate::bitstream::byte_bits(s[0]) + bytes_bits(t));
        assert(bytes_bits(s).skip(8 * k) =~= bytes_bits(t).skip(8 * (k - 1)));
    }
}

/// The value of the `bits` bits of `data` from bit `index` on, when there are that many.
pub fn run_value(data: &[u8], index: usize, bits: u32) -> (r: Option<u32>)
    requires
        bits <= 32,
    ensures
        index + bits <= 8 * data@.len() ==> r == Some(
            bits_value(bytes_bits(data@).subrange(index as int, index + bits)) as u32,
        ),
        index + bits > 8 * data@.len() ==> r is None,
{
    let start = index / 8;
    if start >= data.len() {
        if bits == 0 && index == 8 * data.len() {
            proof {
                lemma_bytes_bits_len(data@);
            }
            assert(bytes_bits(data@).subrange(index as int, index + bits) =~= Seq::<bool>::empty());
            return Some(0);
        }
        return None;
    }
    let rest = &data[start..data.len()];
    proof {
        lemma_skip_bytes(data@, start as int);
        lemma_bytes_bits_len(data@);
        lemma_bytes_bits_len(rest@);
    }
    let mut stream = BitStream::new(rest);
    let ghost all = bytes_bits(data@);
    assert(stream@ == all.skip(8 * start));
    if stream.read_bits((index % 8) as u8).is_none() {
        return None;
    }
    assert(stream@ =~= all.skip(index as int));
    let r = stream.read_bits(bits as u8);
    proof {
        if index + bits <= 8 * data@.len() {
            assert(all.skip(index as int).take(bits as int) =~= all.subrange(index as int, index + bits));
        }
    }
    r
}

/// Decodes one symbol of a code given by its packed shape and leaf values.
pub fn decode_symbol(stream: &mut BitStream, tree: &[u8], values: &[u32]) -> (r: Option<u32>)
    requires
        old(stream).wf(),
    ensures
        final(stream).wf(),
        match walk(bytes_bits(tree@), old(stream)@, 0) {
            Some((i, rest)) => if i < values@.len() {
                r == Some(values@[i as int]) && final(stream)@ == rest
            } else {
                r is None
            },
            None => r is None,
        },
{
    let count = values.len();
    match huffman_index(stream, tree) {
        Some(i) => if i < values.len() {
            Some(values[i])
        } else {
            None
        },
        None => None,
    }
}

/// `after` shows what replaying `runs` along scan `order` of `rect` onto
/// `before` shows, and the runs cover the rectangle.
pub open spec fn replays(before: Screen, after: Screen, rect: Rect, order: int, runs: Seq<(nat, nat)>, unchanged: nat) -> bool {
    &&& runs_total(runs) == rect.w * rect.h
    &&& forall|px: int, py: int|
        0 <= px < before.spec_width() && 0 <= py < before.spec_height() ==> #[trigger] screen_picture(after)(px, py) == paint_runs(
            screen_picture(before),
            rect,
            order,
            runs,
            0,
            unchanged,
        )(px, py)
}


/// The framebuffer as a value for each physical pixel.
pub type Raster = spec_fn(int) -> nat;

/// The physical pixels of a framebuffer.
pub open spec fn raster_of(bytes: Seq<u8>) -> Raster {
    |q: int| phys(bytes, q) as nat
}

/// Physical pixel `q` lies in the block, at scale `ps`, of one of the scan
/// positions `from .. to` of `rect`, in a `w` by `h` movie.
pub open spec fn in_span_block(w: nat, h: nat, ps: nat, rect: Rect, order: int, from: int, to: int, q: int) -> bool {
    exists|i: int, dx: int, dy: int|
        from <= i < to && 0 <= dx < ps && 0 <= dy < ps && q == #[trigger] phys_index(
            w,
            h,
            ps,
            scan_at(rect, order, i).0,
            scan_at(rect, order, i).1,
            dx,
            dy,
        )
}

/// Paints every physical pixel of the blocks of scan positions `from .. to`
/// with `kind`; the unchanged kind leaves them as they are.
pub open spec fn raster_span(r: Raster, w: nat, h: nat, ps: nat, rect: Rect, order: int, from: int, to: int, kind: nat, unchanged: nat) -> Raster {
    if kind == unchanged {
        r
    } else {
        |q: int| if in_span_block(w, h, ps, rect, order, from, to, q) { kind } else { r(q) }
    }
}

/// Replays runs (kind, length) along the scan onto physical pixels, from position `from`.
pub open spec fn raster_runs(r: Raster, w: nat, h: nat, ps: nat, rect: Rect, order: int, runs: Seq<(nat, nat)>, from: int, unchanged: nat) -> Raster
    decreases runs.len(),
{
    if runs.len() == 0 {
        r
    } else {
        raster_runs(
            raster_span(r, w, h, ps, rect, order, from, from + runs[0].1, runs[0].0, unchanged),
            w,
            h,
            ps,
            rect,
            order,
            runs.drop_first(),
            from + runs[0].1,
            unchanged,
        )
    }
}

/// Replays decoded rectangles, in order, onto physical pixels.
pub open spec fn raster_items(r: Raster, w: nat, h: nat, ps: nat, items: Seq<Replayed>, unchanged: nat) -> Raster
    decreases items.len(),
{
    if items.len() == 0 {
        r
    } else {
        let it = items.last();
        raster_runs(raster_items(r, w, h, ps, items.drop_last(), unchanged), w, h, ps, it.0, it.1, it.2, 0, unchanged)
    }
}

/// The rasters agree on every physical pixel.
pub open spec fn same_raster(r: Raster, s: Raster) -> bool {
    forall|q: int| 0 <= q < SIDE * SIDE ==> #[trigger] r(q) == s(q)
}

/// The bytes show the raster on every physical pixel.
pub open spec fn shows_raster(bytes: Seq<u8>, r: Raster) -> bool {
    forall|q: int| 0 <= q < SIDE * SIDE ==> #[trigger] phys(bytes, q) as nat == r(q)
}

proof fn lemma_raster_runs_push(
    r: Raster,
    w: nat,
    h: nat,
    ps: nat,
    rect: Rect,
    order: int,
    runs: Seq<(nat, nat)>,
    x: (nat, nat),
    from: int,
    unchanged: nat,
)
    ensures
        raster_runs(r, w, h, ps, rect, order, runs.push(x), from, unchanged) == raster_span(
            raster_runs(r, w, h, ps, rect, order, runs, from, unchanged),
            w,
            h,
            ps,
            rect,
            order,
            from + runs_total(runs),
            from + runs_total(runs) + x.1,
            x.0,
            unchanged,
        ),
    decreases runs.len(),
{
    let pushed = runs.push(x);
    if runs.len() == 0 {
        assert(pushed.drop_first() =~= Seq::<(nat, nat)>::empty());
        assert(pushed[0] == x);
        let painted = raster_span(r, w, h, ps, rect, order, from, from + x.1, x.0, unchanged);
        assert(raster_runs(painted, w, h, ps, rect, order, pushed.drop_first(), from + x.1, unchanged) == painted);
        assert(runs_total(runs) == 0);
    } else {
        let rest = runs.drop_first();
        assert(pushed.drop_first() =~= rest.push(x));
        assert(pushed[0] == runs[0]);
        let painted = raster_span(r, w, h, ps, rect, order, from, from + runs[0].1, runs[0].0, unchanged);
        lemma_raster_runs_push(painted, w, h, ps, rect, order, rest, x, from + runs[0].1, unchanged);
    }
}

proof fn lemma_raster_runs_agree(
    r: Raster,
    s: Raster,
    w: nat,
    h: nat,
    ps: nat,
    rect: Rect,
    order: int,
    runs: Seq<(nat, nat)>,
    from: int,
    unchanged: nat,
)
    requires
        same_raster(r, s),
    ensures
        same_raster(raster_runs(r, w, h, ps, rect, order, runs, from, unchanged), raster_runs(s, w, h, ps, rect, order, runs, from, unchanged)),
    decreases runs.len(),
{
    if runs.len() > 0 {
        let a = raster_span(r, w, h, ps, rect, order, from, from + runs[0].1, runs[0].0, unchanged);
        let b = raster_span(s, w, h, ps, rect, order, from, from + runs[0].1, runs[0].0, unchanged);
        assert(same_raster(a, b)) by {
            assert forall|q: int| 0 <= q < SIDE * SIDE implies #[trigger] a(q) == b(q) by {
                assert(r(q) == s(q));
            }
        }
        lemma_raster_runs_agree(a, b, w, h, ps, rect, order, runs.drop_first(), from + runs[0].1, unchanged);
    }
}

/// The first bits of a framebuffer's physical pixels.
pub open spec fn base_raster(bytes: Seq<u8>) -> Raster {
    |q: int| (phys(bytes, q) % 2) as nat
}

/// `mid` shows `r`, and `fin` is `mid` after the smoothing filter of a
/// `w` by `h` movie at scale `ps`: each physical pixel's second bit flipped
/// once for each check of the filter that fires on it.
pub open spec fn smoothed_from(mid: Seq<u8>, fin: Seq<u8>, r: Raster, w: nat, h: nat, ps: nat) -> bool {
    &&& shows_raster(mid, r)
    &&& forall|q: int| 0 <= q < SIDE * SIDE ==> #[trigger] phys(fin, q) == phys(mid, q) ^ shade(flips(mid, w, h, ps, smooth_checks(w, h, ps), q))
}


/// `after` is `before` with the frame record `items` decoded onto it, for a
/// framebuffer at scale `ps`: the rectangles replayed on every physical
/// pixel, and for two colours on the first bits, then the smoothing filter.
pub open spec fn frame_step(before: Seq<u8>, after: Seq<u8>, items: Seq<Replayed>, t: MovieTables, ps: nat) -> bool {
    let u = unchanged_kind(t.bpp) as nat;
    if t.bpp == 1 {
        exists|mid: Seq<u8>| #[trigger] smoothed_from(
            mid,
            after,
            raster_items(base_raster(before), t.width as nat, t.height as nat, ps, items, u),
            t.width as nat,
            t.height as nat,
            ps,
        )
    } else {
        shows_raster(after, raster_items(raster_of(before), t.width as nat, t.height as nat, ps, items, u))
    }
}

/// The framebuffers `bs` follow each other by decoding the frame records
/// of `s0` in turn: `bs[k + 1]` is `bs[k]` with record `k` decoded onto it.
pub open spec fn frames_chain(bs: Seq<Seq<u8>>, s0: Seq<bool>, t: MovieTables, ps: nat) -> bool {
    &&& bs.len() >= 1
    &&& forall|k: int| 0 <= k < bs.len() - 1 ==> #[trigger] chain_link(bs[k], bs[k + 1], s0, t, ps, k as nat)
}

/// `after` is `before` with frame record `k` of `s0` decoded onto it.
pub open spec fn chain_link(before: Seq<u8>, after: Seq<u8>, s0: Seq<bool>, t: MovieTables, ps: nat, k: nat) -> bool {
    match parse_frames(s0, t, k) {
        Some(s1) => match parse_frame(s1, t) {
            Some((items, _)) => frame_step(before, after, items, t, ps),
            None => false,
        },
        None => false,
    }
}

/// The picture of a screen's first bits: the colours of a two-colour movie
/// under the smoothing shade.
pub open spec fn base_picture(s: Screen) -> Picture {
    |x: int, y: int| (s.pixel(x, y) % 2) as nat
}

/// `after` shows what replaying `items` onto `before` shows (for a
/// two-colour movie, `bpp` 1, as far as first bits go); each item is a
/// rectangle of the frame with a scan order.
pub open spec fn shows_replay(before: Screen, after: Screen, items: Seq<Replayed>, unchanged: nat, bpp: u32) -> bool {
    &&& forall|k: int| 0 <= k < items.len() ==> crate::frame::rect_in(#[trigger] items[k].0, before.spec_width(), before.spec_height())
        && 0 <= items[k].1 < 4
    &&& forall|px: int, py: int| 0 <= px < before.spec_width() && 0 <= py < before.spec_height() ==> if bpp == 1 {
        #[trigger] after.pixel(px, py) % 2 == paint_items(base_picture(before), items, unchanged)(px, py) % 2
    } else {
        after.pixel(px, py) == paint_items(screen_picture(before), items, unchanged)(px, py)
    }
}

proof fn lemma_index_in_screen(s: Screen, x: int, y: int)
    requires
        s.wf(),
        0 <= x < s.spec_width(),
        0 <= y < s.spec_height(),
    ensures
        0 <= s.index_of(x, y, 0, 0) < SIDE * SIDE,
{
    s.lemma_index_bounds(x, y);
}

/// A player: the tables, the position in the bitstream, the phase
/// accumulator, the frames shown since the start, and the framebuffer.
pub struct Player<'a> {
    tables: MovieTables<'a>,
    stream: BitStream<'a>,
    phase: u32,
    frame: u32,
    screen: Screen,
}

impl<'a> Player<'a> {
    pub closed spec fn wf(&self) -> bool {
        &&& tables_ok(self.tables)
        &&& self.stream.wf()
        &&& self.screen.wf()
        &&& self.screen.spec_width() == self.tables.width
        &&& self.screen.spec_height() == self.tables.height
        &&& self.phase < TICKS
        &&& self.frame <= self.tables.frame_count
    }

    pub closed spec fn spec_tables(&self) -> MovieTables<'a> {
        self.tables
    }

    pub closed spec fn spec_phase(&self) -> nat {
        self.phase as nat
    }

    pub closed spec fn spec_frame(&self) -> nat {
        self.frame as nat
    }

    /// The bits of the movie not yet read.
    pub closed spec fn stream_bits(&self) -> Seq<bool> {
        self.stream@
    }

    pub closed spec fn spec_screen(&self) -> Screen {
        self.screen
    }

    /// A player at the start of the movie, on a blank framebuffer.
    pub fn new(tables: MovieTables<'a>) -> (r: Player<'a>)
        requires
            tables_ok(tables),
        ensures
            r.wf(),
            r.spec_tables() == tables,
            r.spec_phase() == 0,
            r.spec_frame() == 0,
            r.stream_bits() == bytes_bits(tables.movie@),
    {
        let stream = BitStream::new(tables.movie);
        let screen = Screen::new(tables.width, tables.height);
        Player { tables, stream, phase: 0, frame: 0, screen }
    }

    /// The phase accumulator, in ticks.
    pub fn phase(&self) -> (r: u32)
        ensures
            r == self.spec_phase(),
    {
        self.phase
    }

    /// The frames shown since the start of the movie.
    pub fn frame(&self) -> (r: u32)
        ensures
            r == self.spec_frame(),
    {
        self.frame
    }

    /// The framebuffer.
    pub fn screen(&self) -> (r: &Screen)
        ensures
            *r == self.spec_screen(),
    {
        &self.screen
    }

    /// Back to the start of the movie, on a blank framebuffer.
    fn restart(&mut self)
        requires
            old(self).wf(),
        ensures
            final(self).wf(),
            final(self).spec_tables() == old(self).spec_tables(),
            final(self).spec_phase() == 0,
            final(self).spec_frame() == 0,
            final(self).stream_bits() == bytes_bits(old(self).spec_tables().movie@),
            blank(final(self).spec_screen()),
    {
        self.stream = BitStream::new(self.tables.movie);
        self.screen = Screen::new(self.tables.width, self.tables.height);
        self.phase = 0;
        self.frame = 0;
    }

    /// One display tick: the phase grows by the frame rate, and while it is
    /// at least `TICKS` it drops by `TICKS` and the next frame is decoded. At
    /// the end of the movie, or where the stream holds no frame record,
    /// playback starts over from the beginning on a blank framebuffer.
    pub fn update(&mut self)
        requires
            old(self).wf(),
        ensures
            final(self).wf(),
            final(self).spec_tables() == old(self).spec_tables(),
            ({
                let t = old(self).spec_tables();
                let total = (old(self).spec_phase() + t.frame_rate) as nat;
                let d = (total / 60) as nat;
                if old(self).spec_frame() + d <= t.frame_count && parse_frames(old(self).stream_bits(), t, d) is Some {
                    &&& final(self).spec_phase() == total % 60
                    &&& final(self).spec_frame() == old(self).spec_frame() + d
                    &&& final(self).stream_bits() == parse_frames(old(self).stream_bits(), t, d)->Some_0
                    &&& d == 0 ==> final(self).spec_screen() == old(self).spec_screen()
                    &&& exists|bs: Seq<Seq<u8>>|
                        #[trigger] frames_chain(bs, old(self).stream_bits(), t, old(self).spec_screen().spec_pixel_size()) && bs.len()
                            == d + 1 && bs[0] == old(self).spec_screen().bytes() && bs[d as int] == final(self).spec_screen().bytes()
                } else {
                    &&& final(self).spec_phase() == 0
                    &&& final(self).spec_frame() == 0
                    &&& final(self).stream_bits() == bytes_bits(t.movie@)
                    &&& blank(final(self).spec_screen())
                }
            }),
    {
        let mut acc: u64 = self.phase as u64 + self.tables.frame_rate as u64;
        let ghost total = acc as nat;
        let ghost mut j: nat = 0;
        let ghost st0 = self.stream@;
        let ghost mut bs: Seq<Seq<u8>> = seq![self.screen.bytes()];
        loop
            invariant_except_break
                acc >= 0,
            invariant
                self.wf(),
                self.tables == old(self).tables,
                self.phase == old(self).phase,
                total == old(self).spec_phase() + old(self).tables.frame_rate,
                acc + 60 * j == total,
                self.frame == old(self).frame + j,
                st0 == old(self).stream@,
                parse_frames(st0, self.tables, j) == Some(self.stream@),
                j == 0 ==> self.screen == old(self).screen,
                self.screen.spec_pixel_size() == old(self).screen.spec_pixel_size(),
                frames_chain(bs, st0, self.tables, old(self).screen.spec_pixel_size()),
                bs.len() == j + 1,
                bs[0] == old(self).screen.bytes(),
                bs[j as int] == self.screen.bytes(),
            ensures
                acc < 60,
                self.wf(),
                self.tables == old(self).tables,
                acc + 60 * j == total,
                self.frame == old(self).frame + j,
                parse_frames(st0, self.tables, j) == Some(self.stream@),
                j == 0 ==> self.screen == old(self).screen,
                frames_chain(bs, st0, self.tables, old(self).screen.spec_pixel_size()),
                bs.len() == j + 1,
                bs[0] == old(self).screen.bytes(),
                bs[j as int] == self.screen.bytes(),
            decreases acc,
        {
            if acc < 60 {
                break;
            }
            acc = acc - 60;
            if self.frame == self.tables.frame_count {
                assert(total / 60 > j) by (nonlinear_arith)
                    requires
                        total == acc + 60 + 60 * j,
                ;
                self.restart();
                return;
            }
            self.frame = self.frame + 1;
            let ghost cur = self.stream@;
            let ghost before_bytes = self.screen.bytes();
            let decoded = self.decode_frame();
            if !decoded {
                assert(parse_frames(st0, self.tables, j + 1) is None);
                assert(total / 60 >= j + 1) by (nonlinear_arith)
                    requires
                        total == acc + 60 + 60 * j,
                ;
                proof {
                    lemma_frames_fail(st0, self.tables, j + 1, (total / 60) as nat);
                }
                self.restart();
                return;
            }
            proof {
                assert(parse_frames(st0, self.tables, j + 1) == Some(self.stream@));
                assert(parse_frames(st0, self.tables, j) == Some(cur));
                let ps = old(self).screen.spec_pixel_size();
                let (items, rest) = parse_frame(cur, self.tables)->Some_0;
                assert(frame_step(before_bytes, self.screen.bytes(), items, self.tables, ps));
                let nbs = bs.push(self.screen.bytes());
                assert forall|k: int| 0 <= k < nbs.len() - 1 implies #[trigger] chain_link(nbs[k], nbs[k + 1], st0, self.tables, ps, k as nat) by {
                    if k < j {
                        assert(nbs[k] == bs[k] && nbs[k + 1] == bs[k + 1]);
                        assert(chain_link(bs[k], bs[k + 1], st0, self.tables, ps, k as nat));
                    } else {
                        assert(k == j);
                        assert(nbs[k] == before_bytes);
                    }
                }
                assert(frames_chain(nbs, st0, self.tables, ps));
                assert(nbs[(j + 1) as int] == self.screen.bytes());
                bs = nbs;
                j = j + 1;
            }
        }
        assert(total / 60 == j && total % 60 == acc) by {
            vstd::arithmetic::div_mod::lemma_fundamental_div_mod_converse(total as int, 60, j as int, acc as int);
        }
        self.phase = acc as u32;
        assert(frames_chain(bs, old(self).stream_bits(), old(self).spec_tables(), old(self).spec_screen().spec_pixel_size()));
        assert(bs[j as int] == self.spec_screen().bytes());
    }

    /// Decodes the next frame record onto the framebuffer: `true` exactly when
    /// the stream holds one (`parse_frame`); then the stream is past it and
    /// the framebuffer shows its rectangles replayed (for two colours, on the
    /// first bits, the smoothing filter then shading the second bits).
    #[verifier::rlimit(40)]
    pub fn decode_frame(&mut self) -> (r: bool)
        requires
            old(self).wf(),
        ensures
            final(self).wf(),
            final(self).spec_tables() == old(self).spec_tables(),
            final(self).spec_phase() == old(self).spec_phase(),
            final(self).spec_frame() == old(self).spec_frame(),
            final(self).spec_screen().spec_pixel_size() == old(self).spec_screen().spec_pixel_size(),
            r == parse_frame(old(self).stream_bits(), old(self).spec_tables()) is Some,
            r ==> match parse_frame(old(self).stream_bits(), old(self).spec_tables()) {
                Some((items, rest)) => final(self).stream_bits() == rest && shows_replay(
                    old(self).spec_screen(),
                    final(self).spec_screen(),
                    items,
                    unchanged_kind(old(self).spec_tables().bpp) as nat,
                    old(self).spec_tables().bpp,
                ) && frame_step(
                    old(self).spec_screen().bytes(),
                    final(self).spec_screen().bytes(),
                    items,
                    old(self).spec_tables(),
                    old(self).spec_screen().spec_pixel_size(),
                ),
                None => false,
            },
    {
        let ghost u = unchanged_kind(self.tables.bpp) as nat;
        let ghost s0 = self.stream@;
        let ghost pic0 = if self.tables.bpp == 1 { base_picture(self.screen) } else { screen_picture(self.screen) };
        let ghost mut items: Seq<Replayed> = Seq::empty();
        let ghost gw = self.tables.width as nat;
        let ghost gh = self.tables.height as nat;
        let ghost gp = self.screen.spec_pixel_size();
        let ghost rf0 = if self.tables.bpp == 1 { base_raster(self.screen.bytes()) } else { raster_of(self.screen.bytes()) };
        if self.tables.bpp == 1 {
            let ghost before = self.screen;
            self.screen.undo_smooth_filter();
            assert forall|q: int| 0 <= q < SIDE * SIDE implies #[trigger] phys(self.screen.bytes(), q) as nat == rf0(q) by {
                let b = phys(before.bytes(), q);
                assert(b & 1 == b % 2) by (bit_vector);
            }
            assert forall|x: int, y: int| 0 <= x < self.tables.width && 0 <= y < self.tables.height implies #[trigger] screen_picture(self.screen)(x, y)
                == pic0(x, y) by {
                let q = before.index_of(x, y, 0, 0);
                lemma_index_in_screen(before, x, y);
                let b = phys(before.bytes(), q);
                assert(b & 1 == b % 2) by (bit_vector);
            }
        }
        assert(agree(screen_picture(self.screen), paint_items(pic0, items, u), self.tables.width as nat, self.tables.height as nat));
        let count = match decode_symbol(&mut self.stream, self.tables.count_tree, self.tables.count_values) {
            Some(c) => c,
            None => {
                return false;
            },
        };
        let ghost s1 = self.stream@;
        assert(parse_frame(s0, self.tables) == parse_rects(s1, self.tables, count as nat, 0));
        let width = self.tables.width;
        let height = self.tables.height;
        assert(width * height <= SIDE * SIDE) by (nonlinear_arith)
            requires
                width <= SIDE,
                height <= SIDE,
        ;
        let area = width * height;
        let mut next: u32 = 0;
        let mut k: u32 = 0;
        assert(items + Seq::<Replayed>::empty() =~= items);
        while k < count
            invariant
                self.wf(),
                self.tables == old(self).tables,
                self.phase == old(self).phase,
                self.frame == old(self).frame,
                width == self.tables.width,
                height == self.tables.height,
                area == width * height,
                k <= count,
                next <= area,
                u == unchanged_kind(self.tables.bpp) as nat,
                agree(screen_picture(self.screen), paint_items(pic0, items, u), width as nat, height as nat),
                forall|j: int| 0 <= j < items.len() ==> crate::frame::rect_in(#[trigger] items[j].0, width as nat, height as nat)
                    && 0 <= items[j].1 < 4,
                parse_rects(s1, self.tables, count as nat, 0) == match parse_rects(self.stream@, self.tables, (count - k) as nat, next as nat) {
                    Some((its, rr)) => Some((items + its, rr)),
                    None => None,
                },
                s0 == old(self).stream@,
                parse_frame(s0, self.tables) == parse_rects(s1, self.tables, count as nat, 0),
                gw == width,
                gh == height,
                gp == self.screen.spec_pixel_size(),
                gp == old(self).screen.spec_pixel_size(),
                rf0 == if self.tables.bpp == 1 { base_raster(old(self).screen.bytes()) } else { raster_of(old(self).screen.bytes()) },
                shows_raster(self.screen.bytes(), raster_items(rf0, gw, gh, gp, items, u)),
            decreases count - k,
        {
            let ghost cur = self.stream@;
            let step = match self.stream.read_int() {
                Some(s) => s,
                None => {
                    assert(parse_rects(cur, self.tables, (count - k) as nat, next as nat) is None);
                    return false;
                },
            };
            let ghost d1 = self.stream@;
            let span = match self.stream.read_int() {
                Some(s) => s,
                None => {
                    assert(parse_rects(cur, self.tables, (count - k) as nat, next as nat) is None);
                    return false;
                },
            };
            let ghost d2 = self.stream@;
            if step == 0 || span == 0 || step as u64 + next as u64 > area as u64 || (step - 1 + next) as u64 + span as u64 > area as u64 {
                assert(parse_rects(cur, self.tables, (count - k) as nat, next as nat) is None);
                return false;
            }
            let i = next + step - 1;
            let (x, y) = get_xy(i, 0, width, height);
            let (tx, ty) = get_xy(i + span - 1, 0, width, height);
            if tx < x || ty < y {
                assert(parse_rects(cur, self.tables, (count - k) as nat, next as nat) is None);
                return false;
            }
            let ghost before = self.screen;
            let rw = tx - x + 1;
            let rh = ty - y + 1;
            let ghost rect = Rect { x, y, w: rw, h: rh };
            if !self.decode_rect(x, y, rw, rh) {
                assert(parse_rects(cur, self.tables, (count - k) as nat, next as nat) is None);
                return false;
            }
            proof {
                let (o, rs, d3) = parse_rect(d2, self.tables, rw as nat, rh as nat)->Some_0;
                let prior = paint_items(pic0, items, u);
                lemma_paint_runs_agree(screen_picture(before), prior, rect, o, rs, 0, u, width as nat, height as nat);
                let next_items = items.push((rect, o, rs));
                assert(next_items.drop_last() =~= items);
                let ritems = raster_items(rf0, gw, gh, gp, items, u);
                assert(same_raster(raster_of(before.bytes()), ritems)) by {
                    assert forall|q: int| 0 <= q < SIDE * SIDE implies #[trigger] raster_of(before.bytes())(q) == ritems(q) by {
                        assert(phys(before.bytes(), q) as nat == ritems(q));
                    }
                }
                lemma_raster_runs_agree(raster_of(before.bytes()), ritems, gw, gh, gp, rect, o, rs, 0, u);
                assert(raster_items(rf0, gw, gh, gp, next_items, u) == raster_runs(ritems, gw, gh, gp, rect, o, rs, 0, u));
                assert forall|q: int| 0 <= q < SIDE * SIDE implies #[trigger] phys(self.screen.bytes(), q) as nat
                    == raster_items(rf0, gw, gh, gp, next_items, u)(q) by {
                    assert(phys(self.screen.bytes(), q) as nat == raster_runs(raster_of(before.bytes()), gw, gh, gp, rect, o, rs, 0, u)(q));
                }
                assert forall|px: int, py: int| 0 <= px < width && 0 <= py < height implies #[trigger] screen_picture(self.screen)(px, py)
                    == paint_items(pic0, next_items, u)(px, py) by {
                    assert(screen_picture(self.screen)(px, py) == paint_runs(screen_picture(before), rect, o, rs, 0, u)(px, py));
                }
                assert(0 <= o < 4);
                assert(crate::frame::rect_in(rect, width as nat, height as nat));
                assert(next_items[items.len() as int] == (rect, o, rs));
                assert forall|j: int| 0 <= j < next_items.len() implies crate::frame::rect_in(#[trigger] next_items[j].0, width as nat, height as nat)
                    && 0 <= next_items[j].1 < 4 by {
                    if j < items.len() {
                        assert(next_items[j] == items[j]);
                    }
                }
                assert(parse_rects(cur, self.tables, (count - k) as nat, next as nat) == match parse_rects(d3, self.tables, (count - k - 1) as nat, (i + 1) as nat) {
                    Some((its, rr)) => Some((seq![(rect, o, rs)] + its, rr)),
                    None => None,
                });
                match parse_rects(d3, self.tables, (count - k - 1) as nat, (i + 1) as nat) {
                    Some((its, rr)) => {
                        assert(items + (seq![(rect, o, rs)] + its) =~= next_items + its);
                    },
                    None => {},
                }
                items = next_items;
            }
            next = i + 1;
            k = k + 1;
        }
        assert(items + Seq::<Replayed>::empty() =~= items);
        if self.tables.bpp == 1 {
            let ghost before = self.screen;
            self.screen.apply_smooth_filter();
            assert(smoothed_from(before.bytes(), self.screen.bytes(), raster_items(rf0, gw, gh, gp, items, u), gw, gh, gp));
            assert forall|x: int, y: int| 0 <= x < width && 0 <= y < height implies #[trigger] self.screen.pixel(x, y) % 2
                == paint_items(pic0, items, u)(x, y) % 2 by {
                lemma_index_in_screen(before, x, y);
                let a = self.screen.pixel(x, y);
                let b = before.pixel(x, y);
                assert(screen_picture(before)(x, y) == b as nat);
                assert(a & 1 == b & 1 ==> a % 2 == b % 2) by (bit_vector);
            }
        } else {
            assert forall|x: int, y: int| 0 <= x < width && 0 <= y < height implies #[trigger] self.screen.pixel(x, y)
                == paint_items(pic0, items, u)(x, y) by {
                assert(screen_picture(self.screen)(x, y) == self.screen.pixel(x, y) as nat);
            }
        }
        assert(old(self).screen.spec_width() == width && old(self).screen.spec_height() == height);
        assert(old(self).spec_tables().bpp == self.tables.bpp);
        assert forall|j: int| 0 <= j < items.len() implies crate::frame::rect_in(#[trigger] items[j].0, old(self).screen.spec_width(), old(self).screen.spec_height())
            && 0 <= items[j].1 < 4 by {}
        if self.tables.bpp == 1 {
            assert(pic0 == base_picture(old(self).screen));
        } else {
            assert(pic0 == screen_picture(old(self).screen));
        }
        assert(shows_replay(old(self).spec_screen(), self.spec_screen(), items, u, old(self).spec_tables().bpp));
        true
    }

    /// Decodes the scan order and the runs of a `w` by `h` rectangle at
    /// (`x`, `y`), painting its pixels; `false` when the stream cannot be read as such.
    pub fn decode_rect(&mut self, x: u32, y: u32, w: u32, h: u32) -> (r: bool)
        requires
            old(self).wf(),
            1 <= w,
            1 <= h,
            x + w <= old(self).spec_tables().width,
            y + h <= old(self).spec_tables().height,
        ensures
            final(self).wf(),
            final(self).spec_tables() == old(self).spec_tables(),
            final(self).spec_phase() == old(self).spec_phase(),
            final(self).spec_frame() == old(self).spec_frame(),
            final(self).spec_screen().spec_pixel_size() == old(self).spec_screen().spec_pixel_size(),
            r == parse_rect(old(self).stream_bits(), old(self).spec_tables(), w as nat, h as nat) is Some,
            r ==> match parse_rect(old(self).stream_bits(), old(self).spec_tables(), w as nat, h as nat) {
                Some((order, runs, rest)) => final(self).stream_bits() == rest && replays(
                    old(self).spec_screen(),
                    final(self).spec_screen(),
                    Rect { x, y, w, h },
                    order,
                    runs,
                    unchanged_kind(old(self).spec_tables().bpp) as nat,
                ) && shows_raster(
                    final(self).spec_screen().bytes(),
                    raster_runs(
                        raster_of(old(self).spec_screen().bytes()),
                        old(self).spec_tables().width as nat,
                        old(self).spec_tables().height as nat,
                        old(self).spec_screen().spec_pixel_size(),
                        Rect { x, y, w, h },
                        order,
                        runs,
                        0,
                        unchanged_kind(old(self).spec_tables().bpp) as nat,
                    ),
                ),
                None => false,
            },
    {
        let ghost pic0 = screen_picture(self.screen);
        let ghost r0 = raster_of(self.screen.bytes());
        let ghost gw = self.tables.width as nat;
        let ghost gh = self.tables.height as nat;
        let ghost gp = self.screen.spec_pixel_size();
        let ghost rect = Rect { x, y, w, h };
        let ghost mut runs: Seq<(nat, nat)> = Seq::empty();
        let ghost u = unchanged_kind(self.tables.bpp) as nat;
        let ghost s0 = self.stream@;
        let order = if w == 1 || h == 1 {
            0
        } else {
            match decode_symbol(&mut self.stream, self.tables.order_tree, self.tables.order_values) {
                Some(o) => if o < 4 {
                    o
                } else {
                    return false;
                },
                None => {
                    return false;
                },
            }
        };
        let ghost s1 = self.stream@;
        assert(parse_order(s0, self.tables, w as nat, h as nat) == Some((order as int, s1)));
        proof {
            lemma2_to64();
        }
        let bpp = self.tables.bpp;
        let palette = 1u32 << bpp;
        assert(bpp <= 2 ==> (1u32 << bpp) <= 4) by (bit_vector);
        assert(bpp <= 2 ==> (1u32 << bpp) == (1u16 << (bpp as u16)) as u32) by (bit_vector);
        let bits = self.tables.run_value_bits;
        assert(w * h <= SIDE * SIDE) by (nonlinear_arith)
            requires
                w <= SIDE,
                h <= SIDE,
        ;
        let n = w * h;
        let mut i: u32 = 0;
        while i < n
            invariant
                self.wf(),
                self.tables == old(self).tables,
                self.phase == old(self).phase,
                self.frame == old(self).frame,
                x + w <= self.tables.width,
                y + h <= self.tables.height,
                1 <= w,
                1 <= h,
                n == w * h,
                n <= SIDE * SIDE,
                order < 4,
                palette <= 4,
                palette == 1u32 << self.tables.bpp,
                palette == u,
                bits == self.tables.run_value_bits,
                i <= n,
                rect == (Rect { x, y, w, h }),
                u == unchanged_kind(self.tables.bpp) as nat,
                runs_total(runs) == i,
                forall|px: int, py: int| 0 <= px < self.tables.width && 0 <= py < self.tables.height ==> #[trigger] screen_picture(self.screen)(px, py)
                    == paint_runs(pic0, rect, order as int, runs, 0, u)(px, py),
                parse_runs(s1, self.tables, n as nat) == match parse_runs(self.stream@, self.tables, (n - i) as nat) {
                    Some((rs, rr)) => Some((runs + rs, rr)),
                    None => None,
                },
                pow2_32_facts(),
                s0 == old(self).stream@,
                parse_order(s0, self.tables, w as nat, h as nat) == Some((order as int, s1)),
                gw == self.tables.width,
                gh == self.tables.height,
                gp == self.screen.spec_pixel_size(),
                r0 == raster_of(old(self).screen.bytes()),
                gp == old(self).screen.spec_pixel_size(),
                shows_raster(self.screen.bytes(), raster_runs(r0, gw, gh, gp, rect, order as int, runs, 0, u)),
            decreases n - i,
        {
            let ghost cur = self.stream@;
            let index = match huffman_index(&mut self.stream, self.tables.runs_tree) {
                Some(v) => v,
                None => {
                    assert(parse_runs(cur, self.tables, (n - i) as nat) is None);
                    return false;
                },
            };
            let position = match index.checked_mul(bits as usize) {
                Some(p) => p,
                None => {
                    assert(index * bits > usize::MAX);
                    assert(parse_runs(cur, self.tables, (n - i) as nat) is None);
                    return false;
                },
            };
            let rundata = match run_value(self.tables.runs_data, position, bits) {
                Some(v) => v,
                None => {
                    return false;
                },
            };
            proof {
                lemma_bytes_bits_len(self.tables.runs_data@);
                assert(position == index * bits);
                assert(position + bits <= 8 * self.tables.runs_data@.len());
                let bb = bytes_bits(self.tables.runs_data@).subrange(position as int, position + bits);
                assert(bb.len() == bits);
                lemma_bits_value_bound(bb);
                if bits < 32 {
                    lemma_pow2_strictly_increases(bits as nat, 32);
                }
                assert(bits_value(bb) < 0x1_0000_0000);
                assert(rundata as nat == bits_value(bb));
                assert(table_value(self.tables.runs_data@, index as nat, bits as nat) == Some(rundata as nat));
            }
            let kind = rundata % (palette + 1);
            let length = rundata / (palette + 1);
            if length == 0 || length > n - i {
                return false;
            }
            let ghost rest = self.stream@;
            assert(parse_runs(cur, self.tables, (n - i) as nat) == match parse_runs(rest, self.tables, (n - i - length) as nat) {
                Some((rs, rr)) => Some((seq![(kind as nat, length as nat)] + rs, rr)),
                None => None,
            });
            let ghost before = paint_runs(pic0, rect, order as int, runs, 0, u);
            let ghost rbefore = raster_runs(r0, gw, gh, gp, rect, order as int, runs, 0, u);
            proof {
                lemma_paint_runs_push(pic0, rect, order as int, runs, (kind as nat, length as nat), 0, u);
                lemma_raster_runs_push(r0, gw, gh, gp, rect, order as int, runs, (kind as nat, length as nat), 0, u);
            }
            let ghost start = i;
            if kind == palette {
                i = i + length;
            } else {
                let stop = i + length;
                while i < stop
                    invariant
                        self.wf(),
                        self.tables == old(self).tables,
                        self.phase == old(self).phase,
                        self.frame == old(self).frame,
                        x + w <= self.tables.width,
                        y + h <= self.tables.height,
                        1 <= w,
                        1 <= h,
                        n == w * h,
                        stop <= n,
                        u == unchanged_kind(self.tables.bpp) as nat,
                        kind < 4,
                        order < 4,
                        start <= i <= stop,
                        rect == (Rect { x, y, w, h }),
                        forall|px: int, py: int| 0 <= px < self.tables.width && 0 <= py < self.tables.height ==> #[trigger] screen_picture(self.screen)(px, py)
                            == paint_span(before, rect, order as int, start as int, i as int, kind as nat, u)(px, py),
                        kind != u,
                        self.stream@ == rest,
                        gw == self.tables.width,
                        gh == self.tables.height,
                        gp == self.screen.spec_pixel_size(),
                        shows_raster(self.screen.bytes(), raster_span(rbefore, gw, gh, gp, rect, order as int, start as int, i as int, kind as nat, u)),
                    decreases stop - i,
                {
                    let (dx, dy) = get_xy(i, order, w, h);
                    let ghost old_screen = self.screen;
                    self.screen.set(x + dx, y + dy, kind as u8);
                    proof {
                        let at = scan_at(rect, order as int, i as int);
                        assert(at == ((x + dx) as int, (y + dy) as int));
                        let rs0 = raster_span(rbefore, gw, gh, gp, rect, order as int, start as int, i as int, kind as nat, u);
                        let rs1 = raster_span(rbefore, gw, gh, gp, rect, order as int, start as int, i + 1, kind as nat, u);
                        assert forall|q: int| 0 <= q < SIDE * SIDE implies #[trigger] phys(self.screen.bytes(), q) as nat == rs1(q) by {
                            if exists|a: int, b: int| 0 <= a < gp && 0 <= b < gp && q == #[trigger] old_screen.index_of((x + dx) as int, (y + dy) as int, a, b) {
                                let (a, b) = choose|a: int, b: int| 0 <= a < gp && 0 <= b < gp && q == #[trigger] old_screen.index_of((x + dx) as int, (y + dy) as int, a, b);
                                assert(phys(self.screen.bytes(), old_screen.index_of((x + dx) as int, (y + dy) as int, a, b)) == kind);
                                assert(q == phys_index(gw, gh, gp, at.0, at.1, a, b));
                                assert(in_span_block(gw, gh, gp, rect, order as int, start as int, i + 1, q));
                            } else {
                                assert(phys(self.screen.bytes(), q) == phys(old_screen.bytes(), q));
                                assert(phys(old_screen.bytes(), q) as nat == rs0(q));
                                if in_span_block(gw, gh, gp, rect, order as int, start as int, i + 1, q) {
                                    let (j, a, b) = choose|j: int, a: int, b: int|
                                        start <= j < i + 1 && 0 <= a < gp && 0 <= b < gp && q == #[trigger] phys_index(
                                            gw,
                                            gh,
                                            gp,
                                            scan_at(rect, order as int, j).0,
                                            scan_at(rect, order as int, j).1,
                                            a,
                                            b,
                                        );
                                    if j == i {
                                        assert(q == old_screen.index_of((x + dx) as int, (y + dy) as int, a, b));
                                    }
                                    assert(in_span_block(gw, gh, gp, rect, order as int, start as int, i as int, q));
                                }
                                if in_span_block(gw, gh, gp, rect, order as int, start as int, i as int, q) {
                                    let (j, a, b) = choose|j: int, a: int, b: int|
                                        start <= j < i && 0 <= a < gp && 0 <= b < gp && q == #[trigger] phys_index(
                                            gw,
                                            gh,
                                            gp,
                                            scan_at(rect, order as int, j).0,
                                            scan_at(rect, order as int, j).1,
                                            a,
                                            b,
                                        );
                                    assert(in_span_block(gw, gh, gp, rect, order as int, start as int, i + 1, q));
                                }
                            }
                        }
                        assert forall|px: int, py: int| 0 <= px < self.tables.width && 0 <= py < self.tables.height implies #[trigger] screen_picture(self.screen)(px, py)
                            == paint_span(before, rect, order as int, start as int, i + 1, kind as nat, u)(px, py) by {
                            assert(screen_picture(self.screen)(px, py) == self.screen.pixel(px, py) as nat);
                            assert(screen_picture(old_screen)(px, py) == old_screen.pixel(px, py) as nat);
                            if px == at.0 && py == at.1 {
                                assert(scan_at(rect, order as int, i as int) == (px, py));
                            } else {
                                if exists|j: int| start <= j < i + 1 && #[trigger] scan_at(rect, order as int, j) == (px, py) {
                                    let j = choose|j: int| start <= j < i + 1 && #[trigger] scan_at(rect, order as int, j) == (px, py);
                                    assert(j != i);
                                }
                            }
                        }
                    }
                    i = i + 1;
                }
            }
            proof {
                let prior = runs;
                runs = runs.push((kind as nat, length as nat));
                match parse_runs(rest, self.tables, (n - i) as nat) {
                    Some((rs, rr)) => {
                        assert(prior + (seq![(kind as nat, length as nat)] + rs) =~= runs + rs);
                    },
                    None => {},
                }
            }
        }
        assert(i == n);
        assert(parse_runs(self.stream@, self.tables, 0) == Some((Seq::<(nat, nat)>::empty(), self.stream@)));
        assert(runs + Seq::<(nat, nat)>::empty() =~= runs);
        assert(pic0 == screen_picture(old(self).screen));
        assert(replays(old(self).screen, self.screen, Rect { x, y, w, h }, order as int, runs, u));
        assert(replays(
            old(self).spec_screen(),
            self.spec_screen(),
            Rect { x, y, w, h },
            order as int,
            runs,
            unchanged_kind(old(self).spec_tables().bpp) as nat,
        ));
        assert(0 <= order < 4 && (w == 1 || h == 1 ==> order == 0));
        true
    }
}

/// Every pixel of the framebuffer is 0.
pub open spec fn blank(s: Screen) -> bool {
    forall|i: int| 0 <= i < BYTES ==> #[trigger] s.bytes()[i] == 0
}

/// Powers of two up to 2^32, as the proofs need them.
pub open spec fn pow2_32_facts() -> bool {
    vstd::arithmetic::power2::pow2(32) == 0x1_0000_0000
}

/// The four display colours for a movie palette: the palette itself, and for
/// two colours, two blends between them for the smoothing filter's shades.
pub fn display_palette(colors: &Vec<u32>) -> (r: Vec<u32>)
    requires
        1 <= colors@.len() <= 4,
    ensures
        r@.len() == 4,
        forall|i: int| 0 <= i < colors@.len() ==> r@[i] == colors@[i],
        colors@.len() == 2 ==> r@[3] == (colors@[0] as nat * 2 + colors@[1] as nat) / 3 && r@[2] == (colors@[0] as nat
            + colors@[1] as nat * 2) / 3,
        colors@.len() != 2 ==> forall|i: int| colors@.len() <= i < 4 ==> r@[i] == 0,
{
    let mut out: Vec<u32> = Vec::new();
    let mut i: usize = 0;
    while i < 4
        invariant
            1 <= colors@.len() <= 4,
            i <= 4,
            out@.len() == i,
            forall|k: int| 0 <= k < i ==> out@[k] == if k < colors@.len() { colors@[k] } else { 0 },
        decreases 4 - i,
    {
        out.push(if i < colors.len() { colors[i] } else { 0 });
        i = i + 1;
    }
    if colors.len() == 2 {
        let a = colors[0] as u64;
        let b = colors[1] as u64;
        out.set(3, ((a * 2 + b) / 3) as u32);
        out.set(2, ((a + b * 2) / 3) as u32);
    }
    out
}

} // verus!
