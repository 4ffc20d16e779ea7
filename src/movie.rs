//! The two-pass movie encoder: statistics over all frame records, three
//! Huffman codes built from them, then the bitstream and its side tables.
use vstd::prelude::*;
use vstd::arithmetic::power2::{pow2, lemma2_to64, lemma_pow2_unfold, lemma_pow2_strictly_increases};
use crate::bitvec::BitVec;
use crate::bitstream::low_bits;
use crate::frame::{Frame, Rect, MAX_PIXELS, rect_in, lemma_index_bound, same_size};
use crate::runs::{Run, runs_from, run_encoding, runs_view, scan_sets, is_rect_encoding, frames_ok, fits_palette};
use crate::differ::{EncodedRect, before, encode_frame, is_frame_encoding};
use crate::huffman::{HuffmanCode, Code, leaves, codeword_of, table_symbols, first_index, lemma_first_index, lemma_first_index_exists};
use crate::intcode::fib_code;

verus! {

broadcast use vstd::seq_lib::group_to_multiset_ensures, vstd::multiset::group_multiset_axioms;

/// The symbol of a run in the run code: its kind plus its length times one
/// more than the palette size.
pub open spec fn run_symbol(r: Run, bpp: u32) -> nat {
    r.kind as nat + r.length as nat * ((1u32 << bpp) as nat + 1)
}

/// The index of the corner of `r` in a frame `width` pixels wide.
pub open spec fn start_index(r: Rect, width: nat) -> nat {
    (r.y * width + r.x) as nat
}

/// One past the index of the far corner of `r`.
pub open spec fn end_index(r: Rect, width: nat) -> nat {
    ((r.y + r.h - 1) * width + r.x + r.w) as nat
}

/// A one pixel wide or tall rectangle, whose scan order is not written.
pub open spec fn degenerate(r: Rect) -> bool {
    r.w == 1 || r.h == 1
}

/// A frame's record can be written: its rectangles lie in the frame, sorted
/// by corner, with scan orders below 4 and runs of at most `MAX_PIXELS`.
pub open spec fn record_ok(rects: Seq<EncodedRect>, width: nat, height: nat) -> bool {
    &&& rects.len() <= MAX_PIXELS
    &&& forall|k: int| 0 <= k < rects.len() ==> rect_in(#[trigger] rects[k].0, width, height) && rects[k].1 < 4
        && forall|j: int| 0 <= j < rects[k].2@.len() ==> #[trigger] rects[k].2@[j].length <= MAX_PIXELS
    &&& forall|i: int, j: int| 0 <= i < j < rects.len() ==> before(#[trigger] rects[i].0, #[trigger] rects[j].0)
}

/// The records of a movie can be written.
pub open spec fn movie_ok(data: Seq<Vec<EncodedRect>>, width: nat, height: nat, bpp: u32) -> bool {
    &&& bpp <= 3
    &&& 1 <= width
    &&& 1 <= height
    &&& width * height <= MAX_PIXELS
    &&& data.len() <= MAX_PIXELS
    &&& forall|f: int| 0 <= f < data.len() ==> record_ok(#[trigger] data[f]@, width, height)
}

/// The three codes of a movie: of run symbols, scan orders and rectangle
/// counts; each absent when no frame uses it.
pub struct MovieCodes {
    pub runs: Option<HuffmanCode>,
    pub orders: Option<HuffmanCode>,
    pub counts: Option<HuffmanCode>,
}

/// The tree of a code, or a one-leaf tree when there is none.
pub open spec fn tree_of(c: Option<HuffmanCode>) -> Code {
    match c {
        Some(h) => h.tree(),
        None => Code::Value(0),
    }
}

/// A code that is present, well formed, and has a leaf for `v`.
pub open spec fn has_symbol(c: Option<HuffmanCode>, v: nat) -> bool {
    c matches Some(h) && h.wf() && leaves(h.tree()).contains(v as u32) && v <= u32::MAX
}

/// Every symbol that the records use has a code word.
pub open spec fn codes_cover(data: Seq<Vec<EncodedRect>>, bpp: u32, codes: MovieCodes) -> bool {
    &&& forall|f: int| 0 <= f < data.len() ==> has_symbol(codes.counts, (#[trigger] data[f])@.len())
    &&& forall|f: int, k: int|
        0 <= f < data.len() && 0 <= k < data[f]@.len() && !degenerate(data[f]@[k].0) ==> has_symbol(
            codes.orders,
            (#[trigger] data[f]@[k]).1 as nat,
        )
    &&& forall|f: int, k: int, j: int|
        0 <= f < data.len() && 0 <= k < data[f]@.len() && 0 <= j < data[f]@[k].2@.len() ==> has_symbol(
            codes.runs,
            run_symbol(#[trigger] data[f]@[k].2@[j], bpp),
        )
}

/// The code words of the runs.
pub open spec fn runs_bits(runs: Seq<Run>, bpp: u32, code: Code) -> Seq<bool>
    decreases runs.len(),
{
    if runs.len() == 0 {
        seq![]
    } else {
        runs_bits(runs.drop_last(), bpp, code) + codeword_of(code, run_symbol(runs.last(), bpp) as u32)
    }
}

/// One rectangle, `last` the corner index of the one before (-1 for none):
/// the corner as a step from `last`, the span to the far corner, the scan
/// order unless degenerate, then the runs.
pub open spec fn rect_bits(e: EncodedRect, last: int, width: nat, bpp: u32, codes: MovieCodes) -> Seq<bool> {
    fib_code((start_index(e.0, width) - last) as nat) + fib_code(
        (end_index(e.0, width) - start_index(e.0, width)) as nat,
    ) + (if degenerate(e.0) {
        seq![]
    } else {
        codeword_of(tree_of(codes.orders), e.1 as u32)
    }) + runs_bits(e.2@, bpp, tree_of(codes.runs))
}

/// The rectangles of a frame record.
pub open spec fn rects_bits(rects: Seq<EncodedRect>, width: nat, bpp: u32, codes: MovieCodes) -> Seq<bool>
    decreases rects.len(),
{
    if rects.len() == 0 {
        seq![]
    } else {
        let n = rects.len() as int;
        let last = if n >= 2 {
            start_index(rects[n - 2].0, width) as int
        } else {
            -1
        };
        rects_bits(rects.drop_last(), width, bpp, codes) + rect_bits(rects[n - 1], last, width, bpp, codes)
    }
}

/// A frame record: the count of rectangles, then the rectangles.
pub open spec fn frame_bits(rects: Seq<EncodedRect>, width: nat, bpp: u32, codes: MovieCodes) -> Seq<bool> {
    codeword_of(tree_of(codes.counts), rects.len() as u32) + rects_bits(rects, width, bpp, codes)
}

/// The records of all frames, one after the other.
pub open spec fn movie_bits(data: Seq<Vec<EncodedRect>>, width: nat, bpp: u32, codes: MovieCodes) -> Seq<bool>
    decreases data.len(),
{
    if data.len() == 0 {
        seq![]
    } else {
        movie_bits(data.drop_last(), width, bpp, codes) + frame_bits(data.last()@, width, bpp, codes)
    }
}

proof fn lemma_start_increasing(a: Rect, b: Rect, width: nat, height: nat)
    requires
        rect_in(a, width, height),
        rect_in(b, width, height),
        before(a, b),
    ensures
        start_index(a, width) < start_index(b, width),
{
    if a.y < b.y {
        assert(a.y * width + a.x < b.y * width + b.x) by (nonlinear_arith)
            requires
                a.y < b.y,
                a.x < width,
        ;
    }
}

proof fn lemma_rect_indices(r: Rect, width: nat, height: nat)
    requires
        rect_in(r, width, height),
        width * height <= MAX_PIXELS,
    ensures
        start_index(r, width) < end_index(r, width) <= width * height,
{
    lemma_index_bound(r.x + r.w - 1, r.y + r.h - 1, width as int, height as int);
    assert(r.y * width <= (r.y + r.h - 1) * width) by (nonlinear_arith)
        requires
            r.h >= 1,
    ;
}

proof fn lemma_symbol_bound(r: Run, bpp: u32)
    requires
        bpp <= 3,
        r.length <= MAX_PIXELS,
    ensures
        run_symbol(r, bpp) < 0x1000_0000,
        (1u32 << bpp) <= 8,
{
    assert(bpp <= 3 ==> (1u32 << bpp) <= 8) by (bit_vector);
    assert(r.length as nat * ((1u32 << bpp) as nat + 1) <= MAX_PIXELS * 9) by (nonlinear_arith)
        requires
            r.length <= MAX_PIXELS,
            (1u32 << bpp) <= 8,
    ;
}

/// The symbol of a run in the run code.
pub fn symbol_of(r: &Run, bpp: u32) -> (s: u32)
    requires
        bpp <= 3,
        r.length <= MAX_PIXELS,
    ensures
        s == run_symbol(*r, bpp),
{
    proof {
        lemma_symbol_bound(*r, bpp);
    }
    r.kind as u32 + r.length * ((1u32 << bpp) + 1)
}


/// A frequency table with one more occurrence of `sym`: the count of its
/// entry goes up by one (held at `u64::MAX`), or it is added last with count 1.
pub open spec fn counted(table: Seq<(u32, u64)>, sym: u32) -> Seq<(u32, u64)> {
    if table_symbols(table).contains(sym) {
        let i = first_index(table_symbols(table), sym);
        table.update(i, (sym, if table[i].1 == u64::MAX { u64::MAX } else { (table[i].1 + 1) as u64 }))
    } else {
        table.push((sym, 1))
    }
}

/// The frequency table of a sequence of symbols, in order of first appearance.
pub open spec fn histogram(syms: Seq<u32>) -> Seq<(u32, u64)>
    decreases syms.len(),
{
    if syms.len() == 0 {
        seq![]
    } else {
        counted(histogram(syms.drop_last()), syms.last())
    }
}

/// The run symbols of one rectangle's runs.
pub open spec fn rect_run_symbols(runs: Seq<Run>, bpp: u32) -> Seq<u32> {
    runs.map_values(|r: Run| run_symbol(r, bpp) as u32)
}

/// The run symbols of a frame record, rectangle after rectangle.
pub open spec fn frame_run_symbols(rects: Seq<EncodedRect>, bpp: u32) -> Seq<u32>
    decreases rects.len(),
{
    if rects.len() == 0 {
        seq![]
    } else {
        frame_run_symbols(rects.drop_last(), bpp) + rect_run_symbols(rects.last().2@, bpp)
    }
}

/// The run symbols of all records.
pub open spec fn run_symbols(data: Seq<Vec<EncodedRect>>, bpp: u32) -> Seq<u32>
    decreases data.len(),
{
    if data.len() == 0 {
        seq![]
    } else {
        run_symbols(data.drop_last(), bpp) + frame_run_symbols(data.last()@, bpp)
    }
}

/// The scan orders of a record's rectangles that are not degenerate.
pub open spec fn frame_orders(rects: Seq<EncodedRect>) -> Seq<u32>
    decreases rects.len(),
{
    if rects.len() == 0 {
        seq![]
    } else {
        frame_orders(rects.drop_last()) + if degenerate(rects.last().0) {
            seq![]
        } else {
            seq![rects.last().1 as u32]
        }
    }
}

/// The written scan orders of all records.
pub open spec fn order_symbols(data: Seq<Vec<EncodedRect>>) -> Seq<u32>
    decreases data.len(),
{
    if data.len() == 0 {
        seq![]
    } else {
        order_symbols(data.drop_last()) + frame_orders(data.last()@)
    }
}

/// The rectangle count of each record.
pub open spec fn count_symbols(data: Seq<Vec<EncodedRect>>) -> Seq<u32> {
    data.map_values(|rects: Vec<EncodedRect>| rects@.len() as u32)
}

/// Adds one occurrence of `sym` to a frequency table.
fn add_count(table: &mut Vec<(u32, u64)>, sym: u32)
    ensures
        final(table)@ == counted(old(table)@, sym),
        table_symbols(final(table)@).contains(sym),
        forall|s: u32| table_symbols(old(table)@).contains(s) ==> table_symbols(final(table)@).contains(s),
{
    let mut i: usize = 0;
    while i < table.len()
        invariant
            i <= table@.len(),
            *table == *old(table),
            forall|k: int| 0 <= k < i ==> table_symbols(table@)[k] != sym,
        decreases table@.len() - i,
    {
        if table[i].0 == sym {
            let (s, n) = table[i];
            proof {
                assert(table_symbols(table@)[i as int] == sym);
                lemma_first_index(table_symbols(table@), sym, i as int);
            }
            table.set(i, (s, n.saturating_add(1)));
            assert(table_symbols(table@) =~= table_symbols(old(table)@));
            assert(table_symbols(table@)[i as int] == sym);
            return;
        }
        i = i + 1;
    }
    assert(!table_symbols(old(table)@).contains(sym));
    table.push((sym, 1));
    assert(table_symbols(table@) =~= table_symbols(old(table)@).push(sym));
    assert(table_symbols(table@)[table@.len() - 1] == sym);
    assert forall|s: u32| table_symbols(old(table)@).contains(s) implies table_symbols(table@).contains(s) by {
        let k = choose|k: int| 0 <= k < table_symbols(old(table)@).len() && table_symbols(old(table)@)[k] == s;
        assert(table_symbols(table@)[k] == s);
    }
}

/// The frequency tables of a movie: of run symbols, of the scan orders of
/// rectangles that are not degenerate, and of rectangle counts.
pub fn collect_statistics(data: &Vec<Vec<EncodedRect>>, bpp: u32) -> (r: (Vec<(u32, u64)>, Vec<(u32, u64)>, Vec<(u32, u64)>))
    requires
        bpp <= 3,
        forall|f: int| 0 <= f < data@.len() ==> (#[trigger] data@[f])@.len() <= MAX_PIXELS
            && forall|k: int, j: int| 0 <= k < data@[f]@.len() && 0 <= j < data@[f]@[k].2@.len() ==> #[trigger] data@[f]@[k].2@[j].length <= MAX_PIXELS,
    ensures
        r.0@ == histogram(run_symbols(data@, bpp)),
        r.1@ == histogram(order_symbols(data@)),
        r.2@ == histogram(count_symbols(data@)),
        forall|f: int| 0 <= f < data@.len() ==> table_symbols(r.2@).contains((#[trigger] data@[f])@.len() as u32),
        forall|f: int, k: int|
            0 <= f < data@.len() && 0 <= k < data@[f]@.len() && !degenerate(data@[f]@[k].0) ==> table_symbols(r.1@).contains(
                (#[trigger] data@[f]@[k]).1 as u32,
            ),
        forall|f: int, k: int, j: int|
            0 <= f < data@.len() && 0 <= k < data@[f]@.len() && 0 <= j < data@[f]@[k].2@.len() ==> table_symbols(r.0@).contains(
                run_symbol(#[trigger] data@[f]@[k].2@[j], bpp) as u32,
            ),
{
    let mut runs: Vec<(u32, u64)> = Vec::new();
    let mut orders: Vec<(u32, u64)> = Vec::new();
    let mut counts: Vec<(u32, u64)> = Vec::new();
    let mut f: usize = 0;
    assert(data@.take(0) =~= Seq::<Vec<EncodedRect>>::empty());
    assert(count_symbols(data@.take(0)) =~= Seq::<u32>::empty());
    while f < data.len()
        invariant
            bpp <= 3,
            forall|f: int| 0 <= f < data@.len() ==> (#[trigger] data@[f])@.len() <= MAX_PIXELS
                && forall|k: int, j: int| 0 <= k < data@[f]@.len() && 0 <= j < data@[f]@[k].2@.len() ==> #[trigger] data@[f]@[k].2@[j].length <= MAX_PIXELS,
            f <= data@.len(),
            runs@ == histogram(run_symbols(data@.take(f as int), bpp)),
            orders@ == histogram(order_symbols(data@.take(f as int))),
            counts@ == histogram(count_symbols(data@.take(f as int))),
            forall|g: int| 0 <= g < f ==> table_symbols(counts@).contains((#[trigger] data@[g])@.len() as u32),
            forall|g: int, k: int|
                0 <= g < f && 0 <= k < data@[g]@.len() && !degenerate(data@[g]@[k].0) ==> table_symbols(orders@).contains(
                    (#[trigger] data@[g]@[k]).1 as u32,
                ),
            forall|g: int, k: int, j: int|
                0 <= g < f && 0 <= k < data@[g]@.len() && 0 <= j < data@[g]@[k].2@.len() ==> table_symbols(runs@).contains(
                    run_symbol(#[trigger] data@[g]@[k].2@[j], bpp) as u32,
                ),
        decreases data@.len() - f,
    {
        let rects = &data[f];
        assert(rects@.take(0) =~= Seq::<EncodedRect>::empty());
        assert(run_symbols(data@.take(f as int), bpp) + frame_run_symbols(rects@.take(0), bpp) =~= run_symbols(data@.take(f as int), bpp));
        assert(order_symbols(data@.take(f as int)) + frame_orders(rects@.take(0)) =~= order_symbols(data@.take(f as int)));
        let mut k: usize = 0;
        while k < rects.len()
            invariant
                bpp <= 3,
                rects == data@[f as int],
                forall|k: int, j: int| 0 <= k < rects@.len() && 0 <= j < rects@[k].2@.len() ==> #[trigger] rects@[k].2@[j].length <= MAX_PIXELS,
                k <= rects@.len(),
                f < data@.len(),
                runs@ == histogram(run_symbols(data@.take(f as int), bpp) + frame_run_symbols(rects@.take(k as int), bpp)),
                orders@ == histogram(order_symbols(data@.take(f as int)) + frame_orders(rects@.take(k as int))),
                counts@ == histogram(count_symbols(data@.take(f as int))),
                forall|g: int| 0 <= g < f ==> table_symbols(counts@).contains((#[trigger] data@[g])@.len() as u32),
                forall|g: int, k: int|
                    0 <= g < f && 0 <= k < data@[g]@.len() && !degenerate(data@[g]@[k].0) ==> table_symbols(orders@).contains(
                        (#[trigger] data@[g]@[k]).1 as u32,
                    ),
                forall|g: int, k: int, j: int|
                    0 <= g < f && 0 <= k < data@[g]@.len() && 0 <= j < data@[g]@[k].2@.len() ==> table_symbols(runs@).contains(
                        run_symbol(#[trigger] data@[g]@[k].2@[j], bpp) as u32,
                    ),
                forall|kk: int| 0 <= kk < k && !degenerate(rects@[kk].0) ==> table_symbols(orders@).contains(
                    (#[trigger] rects@[kk]).1 as u32,
                ),
                forall|kk: int, j: int|
                    0 <= kk < k && 0 <= j < rects@[kk].2@.len() ==> table_symbols(runs@).contains(
                        run_symbol(#[trigger] rects@[kk].2@[j], bpp) as u32,
                    ),
            decreases rects@.len() - k,
        {
            let rect = rects[k].0;
            let ghost oprefix = order_symbols(data@.take(f as int));
            assert(rects@.take(k + 1).drop_last() =~= rects@.take(k as int));
            if rect.h != 1 && rect.w != 1 {
                assert(oprefix + frame_orders(rects@.take(k + 1)) =~= (oprefix + frame_orders(rects@.take(k as int))).push(
                    rects@[k as int].1 as u32,
                ));
                proof {
                    lemma_histogram_push(oprefix + frame_orders(rects@.take(k as int)), rects@[k as int].1 as u32);
                }
                add_count(&mut orders, rects[k].1 as u32);
            } else {
                assert(oprefix + frame_orders(rects@.take(k + 1)) =~= oprefix + frame_orders(rects@.take(k as int)));
            }
            let run_list = &rects[k].2;
            assert(run_list@.take(0) =~= Seq::<Run>::empty());
            assert(rect_run_symbols(run_list@.take(0), bpp) =~= Seq::<u32>::empty());
            assert(run_symbols(data@.take(f as int), bpp) + frame_run_symbols(rects@.take(k as int), bpp) + rect_run_symbols(
                run_list@.take(0),
                bpp,
            ) =~= run_symbols(data@.take(f as int), bpp) + frame_run_symbols(rects@.take(k as int), bpp));
            let mut j: usize = 0;
            while j < run_list.len()
                invariant
                    bpp <= 3,
                    run_list == rects@[k as int].2,
                    forall|j: int| 0 <= j < run_list@.len() ==> #[trigger] run_list@[j].length <= MAX_PIXELS,
                    j <= run_list@.len(),
                    runs@ == histogram(run_symbols(data@.take(f as int), bpp) + frame_run_symbols(rects@.take(k as int), bpp)
                        + rect_run_symbols(run_list@.take(j as int), bpp)),
                    forall|g: int, k: int, j: int|
                        0 <= g < f && 0 <= k < data@[g]@.len() && 0 <= j < data@[g]@[k].2@.len() ==> table_symbols(runs@).contains(
                            run_symbol(#[trigger] data@[g]@[k].2@[j], bpp) as u32,
                        ),
                    forall|kk: int, j: int|
                        0 <= kk < k && 0 <= j < rects@[kk].2@.len() ==> table_symbols(runs@).contains(
                            run_symbol(#[trigger] rects@[kk].2@[j], bpp) as u32,
                        ),
                    forall|jj: int| 0 <= jj < j ==> table_symbols(runs@).contains(
                        run_symbol(#[trigger] run_list@[jj], bpp) as u32,
                    ),
                decreases run_list@.len() - j,
            {
                let sym = symbol_of(&run_list[j], bpp);
                let ghost prefix = run_symbols(data@.take(f as int), bpp) + frame_run_symbols(rects@.take(k as int), bpp);
                assert(rect_run_symbols(run_list@.take(j + 1), bpp) =~= rect_run_symbols(run_list@.take(j as int), bpp).push(sym));
                assert(prefix + rect_run_symbols(run_list@.take(j + 1), bpp) =~= (prefix + rect_run_symbols(
                    run_list@.take(j as int),
                    bpp,
                )).push(sym));
                proof {
                    lemma_histogram_push(prefix + rect_run_symbols(run_list@.take(j as int), bpp), sym);
                }
                add_count(&mut runs, sym);
                j = j + 1;
            }
            assert(run_list@.take(j as int) =~= run_list@);
            assert(run_symbols(data@.take(f as int), bpp) + frame_run_symbols(rects@.take(k + 1), bpp) =~= run_symbols(
                data@.take(f as int),
                bpp,
            ) + frame_run_symbols(rects@.take(k as int), bpp) + rect_run_symbols(run_list@.take(j as int), bpp));
            k = k + 1;
        }
        assert(data@.take(f + 1).drop_last() =~= data@.take(f as int));
        assert(rects@.take(k as int) =~= rects@);
        assert(count_symbols(data@.take(f + 1)) =~= count_symbols(data@.take(f as int)).push(rects@.len() as u32));
        proof {
            lemma_histogram_push(count_symbols(data@.take(f as int)), rects@.len() as u32);
        }
        add_count(&mut counts, rects.len() as u32);
        f = f + 1;
    }
    assert(data@.take(f as int) =~= data@);
    (runs, orders, counts)
}

/// The Huffman code of a table, or none for an empty table.
fn code_of(table: &Vec<(u32, u64)>) -> (r: Option<HuffmanCode>)
    requires
        table_symbols(table@).no_duplicates(),
    ensures
        is_code_of(r, table@),
        forall|v: u32| table_symbols(table@).contains(v) ==> has_symbol(r, v as nat),
        r matches Some(h) ==> h.tree() == crate::huffman::huffman_tree(table@),
{
    if table.len() == 0 {
        None
    } else {
        let h = HuffmanCode::new(table);
        assert forall|v: u32| table_symbols(table@).contains(v) implies has_symbol(Some(h), v as nat) by {
            assert(table_symbols(table@).to_multiset().count(v) > 0);
            assert(leaves(h.tree()).to_multiset().count(v) > 0);
        }
        Some(h)
    }
}

/// `c` is the Huffman code of `table`, or none when the table is empty.
pub open spec fn is_code_of(c: Option<HuffmanCode>, table: Seq<(u32, u64)>) -> bool {
    match c {
        Some(h) => table.len() > 0 && h.wf() && h.tree() == crate::huffman::huffman_tree(table),
        None => table.len() == 0,
    }
}

/// Builds the three codes of a movie from its statistics.
pub fn build_codes(data: &Vec<Vec<EncodedRect>>, bpp: u32) -> (r: MovieCodes)
    requires
        bpp <= 3,
        forall|f: int| 0 <= f < data@.len() ==> (#[trigger] data@[f])@.len() <= MAX_PIXELS
            && forall|k: int, j: int| 0 <= k < data@[f]@.len() && 0 <= j < data@[f]@[k].2@.len() ==> #[trigger] data@[f]@[k].2@[j].length <= MAX_PIXELS,
        forall|f: int, k: int| 0 <= f < data@.len() && 0 <= k < data@[f]@.len() ==> (#[trigger] data@[f]@[k]).1 < 4,
    ensures
        codes_cover(data@, bpp, r),
        is_code_of(r.runs, histogram(run_symbols(data@, bpp))),
        is_code_of(r.orders, histogram(order_symbols(data@))),
        is_code_of(r.counts, histogram(count_symbols(data@))),
{
    let (runs, orders, counts) = collect_statistics(data, bpp);
    proof {
        lemma_histogram_distinct(run_symbols(data@, bpp));
        lemma_histogram_distinct(order_symbols(data@));
        lemma_histogram_distinct(count_symbols(data@));
    }
    let r = MovieCodes { runs: code_of(&runs), orders: code_of(&orders), counts: code_of(&counts) };
    assert forall|f: int, k: int, j: int|
        0 <= f < data@.len() && 0 <= k < data@[f]@.len() && 0 <= j < data@[f]@[k].2@.len() implies has_symbol(
            r.runs,
            run_symbol(#[trigger] data@[f]@[k].2@[j], bpp),
        ) by {
        lemma_symbol_bound(data@[f]@[k].2@[j], bpp);
    }
    assert forall|f: int, k: int|
        0 <= f < data@.len() && 0 <= k < data@[f]@.len() && !degenerate(data@[f]@[k].0) implies has_symbol(
            r.orders,
            (#[trigger] data@[f]@[k]).1 as nat,
        ) by {
        assert(data@[f]@[k].1 < 4);
    }
    r
}


/// Appends the code words of `runs`.
fn emit_runs(movie: &mut BitVec, runs: &Vec<Run>, bpp: u32, code: &Option<HuffmanCode>)
    requires
        bpp <= 3,
        forall|j: int| 0 <= j < runs@.len() ==> (#[trigger] runs@[j]).length <= MAX_PIXELS && has_symbol(*code, run_symbol(runs@[j], bpp)),
    ensures
        final(movie)@ == old(movie)@ + runs_bits(runs@, bpp, tree_of(*code)),
{
    assert(runs@.take(0) =~= Seq::<Run>::empty());
    let mut j: usize = 0;
    while j < runs.len()
        invariant
            bpp <= 3,
            forall|j: int| 0 <= j < runs@.len() ==> (#[trigger] runs@[j]).length <= MAX_PIXELS && has_symbol(*code, run_symbol(runs@[j], bpp)),
            j <= runs@.len(),
            movie@ == old(movie)@ + runs_bits(runs@.take(j as int), bpp, tree_of(*code)),
        decreases runs@.len() - j,
    {
        let sym = symbol_of(&runs[j], bpp);
        assert(has_symbol(*code, run_symbol(runs@[j as int], bpp)));
        if let Some(c) = code {
            c.encode_value(movie, sym);
        }
        assert(runs@.take(j + 1).drop_last() =~= runs@.take(j as int));
        j = j + 1;
    }
    assert(runs@.take(j as int) =~= runs@);
}

/// Appends the record of one frame: the count of rectangles, then each
/// rectangle's corner, span, scan order and runs.
pub fn emit_frame(movie: &mut BitVec, rects: &Vec<EncodedRect>, width: u32, height: u32, bpp: u32, codes: &MovieCodes)
    requires
        bpp <= 3,
        width * height <= MAX_PIXELS,
        record_ok(rects@, width as nat, height as nat),
        has_symbol(codes.counts, rects@.len()),
        forall|k: int| 0 <= k < rects@.len() && !degenerate(rects@[k].0) ==> has_symbol(codes.orders, (#[trigger] rects@[k]).1 as nat),
        forall|k: int, j: int| 0 <= k < rects@.len() && 0 <= j < rects@[k].2@.len() ==> has_symbol(codes.runs, run_symbol(#[trigger] rects@[k].2@[j], bpp)),
    ensures
        final(movie)@ == old(movie)@ + frame_bits(rects@, width as nat, bpp, *codes),
{
    if let Some(c) = &codes.counts {
        c.encode_value(movie, rects.len() as u32);
    }
    let ghost head = movie@;
    let mut last_plus_one: u32 = 0;
    let mut k: usize = 0;
    assert(rects@.take(0) =~= Seq::<EncodedRect>::empty());
    while k < rects.len()
        invariant
            bpp <= 3,
            width * height <= MAX_PIXELS,
            record_ok(rects@, width as nat, height as nat),
            forall|k: int| 0 <= k < rects@.len() && !degenerate(rects@[k].0) ==> has_symbol(codes.orders, (#[trigger] rects@[k]).1 as nat),
            forall|k: int, j: int| 0 <= k < rects@.len() && 0 <= j < rects@[k].2@.len() ==> has_symbol(codes.runs, run_symbol(#[trigger] rects@[k].2@[j], bpp)),
            k <= rects@.len(),
            head == old(movie)@ + codeword_of(tree_of(codes.counts), rects@.len() as u32),
            movie@ == head + rects_bits(rects@.take(k as int), width as nat, bpp, *codes),
            k == 0 ==> last_plus_one == 0,
            k > 0 ==> last_plus_one == start_index(rects@[k - 1].0, width as nat) + 1,
        decreases rects@.len() - k,
    {
        let rect = rects[k].0;
        proof {
            assert(rect_in(rects@[k as int].0, width as nat, height as nat));
            lemma_rect_indices(rect, width as nat, height as nat);
            if k > 0 {
                assert(before(rects@[k - 1].0, rects@[k as int].0));
                lemma_start_increasing(rects@[k - 1].0, rect, width as nat, height as nat);
            }
            assert(rect.y * width <= start_index(rect, width as nat));
            assert((rect.y + rect.h - 1) * width <= end_index(rect, width as nat));
        }
        let i = rect.y * width + rect.x;
        let br = (rect.y + rect.h - 1) * width + rect.x + rect.w;
        let ghost before_rect = movie@;
        movie.write_int(i + 1 - last_plus_one);
        movie.write_int(br - i);
        last_plus_one = i + 1;
        if rect.h != 1 && rect.w != 1 {
            if let Some(c) = &codes.orders {
                assert(has_symbol(codes.orders, rects@[k as int].1 as nat));
                c.encode_value(movie, rects[k].1 as u32);
            }
        }
        assert forall|j: int| 0 <= j < rects@[k as int].2@.len() implies (#[trigger] rects@[k as int].2@[j]).length <= MAX_PIXELS
            && has_symbol(codes.runs, run_symbol(rects@[k as int].2@[j], bpp)) by {
            assert(rect_in(rects@[k as int].0, width as nat, height as nat));
        }
        emit_runs(movie, &rects[k].2, bpp, &codes.runs);
        proof {
            let t = rects@.take(k + 1);
            assert(t.drop_last() =~= rects@.take(k as int));
            assert(t[k as int] == rects@[k as int]);
            if k > 0 {
                assert(t[k - 1] == rects@[k - 1]);
            }
            let last: int = if k > 0 { start_index(rects@[k - 1].0, width as nat) as int } else { -1 };
            assert(movie@ =~= before_rect + rect_bits(rects@[k as int], last, width as nat, bpp, *codes));
        }
        k = k + 1;
    }
    assert(rects@.take(k as int) =~= rects@);
}

/// Appends the records of all frames.
pub fn emit_movie(data: &Vec<Vec<EncodedRect>>, width: u32, height: u32, bpp: u32, codes: &MovieCodes) -> (r: BitVec)
    requires
        movie_ok(data@, width as nat, height as nat, bpp),
        codes_cover(data@, bpp, *codes),
    ensures
        r@ == movie_bits(data@, width as nat, bpp, *codes),
{
    let mut movie = BitVec::new();
    let mut f: usize = 0;
    assert(data@.take(0) =~= Seq::<Vec<EncodedRect>>::empty());
    while f < data.len()
        invariant
            movie_ok(data@, width as nat, height as nat, bpp),
            codes_cover(data@, bpp, *codes),
            f <= data@.len(),
            movie@ == movie_bits(data@.take(f as int), width as nat, bpp, *codes),
        decreases data@.len() - f,
    {
        assert(record_ok(data@[f as int]@, width as nat, height as nat));
        assert(has_symbol(codes.counts, data@[f as int]@.len()));
        assert forall|k: int| 0 <= k < data@[f as int]@.len() && !degenerate(data@[f as int]@[k].0) implies has_symbol(
            codes.orders,
            (#[trigger] data@[f as int]@[k]).1 as nat,
        ) by {}
        assert forall|k: int, j: int| 0 <= k < data@[f as int]@.len() && 0 <= j < data@[f as int]@[k].2@.len() implies has_symbol(
            codes.runs,
            run_symbol(#[trigger] data@[f as int]@[k].2@[j], bpp),
        ) by {}
        emit_frame(&mut movie, &data[f], width, height, bpp, codes);
        assert(data@.take(f + 1).drop_last() =~= data@.take(f as int));
        f = f + 1;
    }
    assert(data@.take(f as int) =~= data@);
    movie
}

/// The values, each in its `bits` lowest bits, one after the other.
pub open spec fn packed(values: Seq<u32>, bits: nat) -> Seq<bool>
    decreases values.len(),
{
    if values.len() == 0 {
        seq![]
    } else {
        packed(values.drop_last(), bits) + low_bits(values.last() as nat, bits)
    }
}

/// The number of bits that hold every value up to `biggest`.
pub fn value_bits(biggest: u32) -> (b: u32)
    ensures
        b <= 32,
        biggest < pow2(b as nat),
        b == 0 || pow2((b - 1) as nat) <= biggest,
{
    proof {
        lemma2_to64();
    }
    let mut b: u32 = 0;
    let mut p: u64 = 1;
    while p <= biggest as u64
        invariant
            b <= 32,
            p == pow2(b as nat),
            b == 0 || pow2((b - 1) as nat) <= biggest,
            p <= biggest ==> b < 32,
        decreases 33 - b,
    {
        proof {
            lemma_pow2_unfold((b + 1) as nat);
            if b + 1 < 32 {
                lemma_pow2_strictly_increases((b + 1) as nat, 32);
            }
        }
        p = p * 2;
        b = b + 1;
        proof {
            lemma2_to64();
        }
    }
    b
}

/// The leaf values, each in `bits` bits: the table the decoder reads a run from.
pub fn run_data(values: &Vec<u32>, bits: u32) -> (r: BitVec)
    requires
        bits <= 32,
    ensures
        r@ == packed(values@, bits as nat),
{
    let mut out = BitVec::new();
    let mut k: usize = 0;
    assert(values@.take(0) =~= Seq::<u32>::empty());
    while k < values.len()
        invariant
            bits <= 32,
            k <= values@.len(),
            out@ == packed(values@.take(k as int), bits as nat),
        decreases values@.len() - k,
    {
        out.write_bits(values[k], bits);
        assert(values@.take(k + 1).drop_last() =~= values@.take(k as int));
        k = k + 1;
    }
    assert(values@.take(k as int) =~= values@);
    out
}


/// A histogram holds each symbol once.
proof fn lemma_histogram_distinct(syms: Seq<u32>)
    ensures
        table_symbols(histogram(syms)).no_duplicates(),
    decreases syms.len(),
{
    if syms.len() > 0 {
        let t = histogram(syms.drop_last());
        let sym = syms.last();
        lemma_histogram_distinct(syms.drop_last());
        if table_symbols(t).contains(sym) {
            lemma_first_index_exists(table_symbols(t), sym);
            let i = first_index(table_symbols(t), sym);
            let v = if t[i].1 == u64::MAX { u64::MAX } else { (t[i].1 + 1) as u64 };
            assert(table_symbols(t.update(i, (sym, v))) =~= table_symbols(t));
        } else {
            assert(table_symbols(t.push((sym, 1))) =~= table_symbols(t).push(sym));
            assert forall|a: int, b: int| 0 <= a < b < table_symbols(t).len() + 1 implies table_symbols(t).push(sym)[a]
                != table_symbols(t).push(sym)[b] by {
                if b == table_symbols(t).len() {
                    assert(table_symbols(t)[a] != sym);
                }
            }
        }
    }
}

proof fn lemma_histogram_push(syms: Seq<u32>, sym: u32)
    ensures
        histogram(syms.push(sym)) == counted(histogram(syms), sym),
{
    assert(syms.push(sym).drop_last() =~= syms);
}

proof fn lemma_runs_lengths(sets: Seq<u16>, i: nat, mask: u16, length: nat)
    requires
        1 <= length <= i <= sets.len(),
    ensures
        forall|k: int| 0 <= k < runs_from(sets, i, mask, length).len() ==> #[trigger] runs_from(sets, i, mask, length)[k].1 <= sets.len(),
    decreases sets.len() - i,
{
    if i >= sets.len() {
        assert(runs_from(sets, i, mask, length) == seq![(mask.trailing_zeros() as nat, length)]);
    } else {
        if sets[i as int] & mask == 0 {
            lemma_runs_lengths(sets, i + 1, sets[i as int], 1);
            let rest = runs_from(sets, i + 1, sets[i as int], 1);
            assert(runs_from(sets, i, mask, length) == seq![(mask.trailing_zeros() as nat, length)] + rest);
            assert forall|k: int| 0 <= k < runs_from(sets, i, mask, length).len() implies #[trigger] runs_from(sets, i, mask, length)[k].1 <= sets.len() by {
                if k > 0 {
                    assert(runs_from(sets, i, mask, length)[k] == rest[k - 1]);
                }
            }
        } else {
            lemma_runs_lengths(sets, i + 1, mask & sets[i as int], length + 1);
            assert(runs_from(sets, i, mask, length) == runs_from(sets, i + 1, mask & sets[i as int], length + 1));
        }
    }
}

proof fn lemma_start_at_least(rects: Seq<EncodedRect>, width: nat, height: nat, k: int)
    requires
        0 <= k < rects.len(),
        forall|k: int| 0 <= k < rects.len() ==> rect_in(#[trigger] rects[k].0, width, height),
        forall|i: int, j: int| 0 <= i < j < rects.len() ==> before(#[trigger] rects[i].0, #[trigger] rects[j].0),
    ensures
        start_index(rects[k].0, width) >= k,
    decreases k,
{
    if k > 0 {
        lemma_start_at_least(rects, width, height, k - 1);
        assert(before(rects[k - 1].0, rects[k].0));
        lemma_start_increasing(rects[k - 1].0, rects[k].0, width, height);
    }
}

/// What `encode_frame` returns can be written.
pub proof fn lemma_frame_record_ok(curr: Frame, prev: Frame, bpp: u32, rects: Seq<EncodedRect>)
    requires
        frames_ok(curr, prev, bpp),
        is_frame_encoding(curr, prev, bpp, rects),
    ensures
        record_ok(rects, curr.spec_width(), curr.spec_height()),
{
    reveal(is_rect_encoding);
    curr.lemma_wf();
    let width = curr.spec_width();
    let height = curr.spec_height();
    assert forall|k: int| 0 <= k < rects.len() implies rect_in(#[trigger] rects[k].0, width, height) && rects[k].1 < 4
        && forall|j: int| 0 <= j < rects[k].2@.len() ==> #[trigger] rects[k].2@[j].length <= MAX_PIXELS by {
        assert(is_rect_encoding(curr, prev, bpp, rects[k]));
        let e = rects[k];
        let sets = scan_sets(curr, prev, bpp, e.0, e.1 as int);
        assert(e.0.w * e.0.h <= width * height) by (nonlinear_arith)
            requires
                e.0.w <= width,
                e.0.h <= height,
        ;
        assert(1 <= e.0.w * e.0.h) by (nonlinear_arith)
            requires
                1 <= e.0.w,
                1 <= e.0.h,
        ;
        lemma_runs_lengths(sets, 1, sets[0], 1);
        assert(sets.len() == e.0.w * e.0.h);
        assert(runs_view(e.2@).len() == e.2@.len());
        assert forall|j: int| 0 <= j < e.2@.len() implies #[trigger] e.2@[j].length <= MAX_PIXELS by {
            assert(runs_view(e.2@)[j] == run_encoding(sets)[j]);
            assert(run_encoding(sets)[j].1 <= sets.len());
            assert(runs_view(e.2@)[j].1 == e.2@[j].length);
        }
    }
    if rects.len() > 0 {
        let n = rects.len() as int;
        lemma_start_at_least(rects, width, height, n - 1);
        lemma_rect_indices(rects[n - 1].0, width, height);
    }
}

/// The encoded form of a movie: the records of each frame against the one
/// before, the codes built from them, the bitstream, and the tables a
/// decoder reads: the shape and leaf values of each code, and the run
/// symbols packed in `run_value_bits` bits each.
pub struct EncodedMovie {
    pub width: u32,
    pub height: u32,
    pub records: Vec<Vec<EncodedRect>>,
    pub codes: MovieCodes,
    pub movie: BitVec,
    pub run_values: Vec<u32>,
    pub run_value_bits: u32,
    pub runs_tree: BitVec,
    pub runs_data: BitVec,
    pub order_tree: BitVec,
    pub order_values: Vec<u32>,
    pub count_tree: BitVec,
    pub count_values: Vec<u32>,
}

/// Frames of one size whose pixels fit a palette of `1 << bpp` colours.
pub open spec fn frames_fit(frames: Seq<Frame>, bpp: u32) -> bool {
    &&& bpp <= 3
    &&& 1 <= frames.len() <= MAX_PIXELS
    &&& forall|f: int| 0 <= f < frames.len() ==> (#[trigger] frames[f]).wf() && same_size(frames[f], frames[0])
        && fits_palette(frames[f], bpp)
}

/// The shape and leaf values of a code, empty when there is none.
fn structure_of(code: &Option<HuffmanCode>) -> (r: (BitVec, Vec<u32>))
    ensures
        code matches Some(h) ==> r.0@ == crate::huffman::shape(h.tree()) && r.1@ == leaves(h.tree()),
        code is None ==> r.0@.len() == 0 && r.1@.len() == 0,
{
    match code {
        Some(h) => h.structure(),
        None => (BitVec::new(), Vec::new()),
    }
}

/// The largest of the values, 0 for none.
fn largest(values: &Vec<u32>) -> (r: u32)
    ensures
        forall|k: int| 0 <= k < values@.len() ==> values@[k] <= r,
        values@.len() == 0 ==> r == 0,
        values@.len() > 0 ==> values@.contains(r),
{
    let mut best: u32 = 0;
    let mut k: usize = 0;
    while k < values.len()
        invariant
            k <= values@.len(),
            forall|j: int| 0 <= j < k ==> values@[j] <= best,
            k == 0 ==> best == 0,
            k > 0 ==> values@.take(k as int).contains(best),
        decreases values@.len() - k,
    {
        if k == 0 || values[k] > best {
            best = values[k];
            assert(values@.take(k + 1)[k as int] == best);
        } else {
            let ghost j = choose|j: int| 0 <= j < k && values@.take(k as int)[j] == best;
            assert(values@.take(k + 1)[j] == best);
        }
        k = k + 1;
    }
    if k > 0 {
        let ghost j = choose|j: int| 0 <= j < k && values@.take(k as int)[j] == best;
        assert(values@[j] == best);
    }
    best
}

/// Encodes a movie: each frame against the one before (the first frame is
/// the starting picture and is not encoded), then the codes, the bitstream
/// and the decoder's tables.
pub fn encode_movie(frames: &Vec<Frame>, bpp: u32) -> (r: EncodedMovie)
    requires
        frames_fit(frames@, bpp),
    ensures
        r.width == frames@[0].spec_width(),
        r.height == frames@[0].spec_height(),
        r.records@.len() == frames@.len() - 1,
        forall|f: int| 0 <= f < r.records@.len() ==> is_frame_encoding(frames@[f + 1], frames@[f], bpp, (#[trigger] r.records@[f])@),
        codes_cover(r.records@, bpp, r.codes),
        is_code_of(r.codes.runs, histogram(run_symbols(r.records@, bpp))),
        is_code_of(r.codes.orders, histogram(order_symbols(r.records@))),
        is_code_of(r.codes.counts, histogram(count_symbols(r.records@))),
        r.movie@ == movie_bits(r.records@, r.width as nat, bpp, r.codes),
        r.runs_tree@ == crate::huffman::shape(tree_of(r.codes.runs)) || r.codes.runs is None,
        r.codes.runs matches Some(h) ==> r.run_values@ == leaves(h.tree()),
        forall|k: int| 0 <= k < r.run_values@.len() ==> r.run_values@[k] < pow2(r.run_value_bits as nat),
        r.run_value_bits <= 32,
        r.runs_data@ == packed(r.run_values@, r.run_value_bits as nat),
        r.codes.orders matches Some(h) ==> r.order_tree@ == crate::huffman::shape(h.tree()) && r.order_values@ == leaves(h.tree()),
        r.codes.counts matches Some(h) ==> r.count_tree@ == crate::huffman::shape(h.tree()) && r.count_values@ == leaves(h.tree()),
{
    let width = frames[0].width();
    let height = frames[0].height();
    proof {
        frames@[0].lemma_wf();
    }
    let mut records: Vec<Vec<EncodedRect>> = Vec::new();
    let mut f: usize = 1;
    while f < frames.len()
        invariant
            frames_fit(frames@, bpp),
            width == frames@[0].spec_width(),
            height == frames@[0].spec_height(),
            width * height <= MAX_PIXELS,
            1 <= width,
            1 <= height,
            1 <= f <= frames@.len(),
            records@.len() == f - 1,
            forall|g: int| 0 <= g < records@.len() ==> is_frame_encoding(frames@[g + 1], frames@[g], bpp, (#[trigger] records@[g])@),
            forall|g: int| 0 <= g < records@.len() ==> record_ok((#[trigger] records@[g])@, width as nat, height as nat),
        decreases frames@.len() - f,
    {
        assert(frames_ok(frames@[f as int], frames@[f - 1], bpp)) by {
            assert(frames@[f as int].wf() && same_size(frames@[f as int], frames@[0]));
            assert(frames@[f - 1].wf() && same_size(frames@[f - 1], frames@[0]));
        }
        let rects = encode_frame(&frames[f], &frames[f - 1], bpp);
        proof {
            lemma_frame_record_ok(frames@[f as int], frames@[f - 1], bpp, rects@);
        }
        records.push(rects);
        f = f + 1;
    }
    assert(movie_ok(records@, width as nat, height as nat, bpp));
    assert forall|g: int, k: int| 0 <= g < records@.len() && 0 <= k < records@[g]@.len() implies (#[trigger] records@[g]@[k]).1 < 4 by {
        assert(record_ok(records@[g]@, width as nat, height as nat));
    }
    let codes = build_codes(&records, bpp);
    let movie = emit_movie(&records, width, height, bpp, &codes);
    let (runs_tree, run_values) = structure_of(&codes.runs);
    let biggest = largest(&run_values);
    let run_value_bits = value_bits(biggest);
    proof {
        assert forall|k: int| 0 <= k < run_values@.len() implies run_values@[k] < pow2(run_value_bits as nat) by {}
    }
    let runs_data = run_data(&run_values, run_value_bits);
    let (order_tree, order_values) = structure_of(&codes.orders);
    let (count_tree, count_values) = structure_of(&codes.counts);
    EncodedMovie {
        width,
        height,
        records,
        codes,
        movie,
        run_values,
        run_value_bits,
        runs_tree,
        runs_data,
        order_tree,
        order_values,
        count_tree,
        count_values,
    }
}

} // verus!
