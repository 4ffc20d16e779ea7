use movie_codec::differ::{bounding_rect, encode_frame};
use movie_codec::frame::{get_xy, scan, scanline, snake, transpose, Frame, Rect};
use movie_codec::movie::{collect_statistics, encode_movie, symbol_of, value_bits};
use movie_codec::palette::nearest_color;
use movie_codec::runs::{encode, encode_rect, value_sets, Run};

fn frame(width: u32, height: u32, pixels: Vec<u8>) -> Frame {
    Frame::new(width, height, pixels).unwrap()
}

fn with_changes(width: u32, height: u32, base: u8, changes: &[(u32, u32, u8)]) -> Frame {
    let mut pixels = vec![base; (width * height) as usize];
    for &(x, y, v) in changes {
        pixels[(y * width + x) as usize] = v;
    }
    frame(width, height, pixels)
}

/// Greedy run count of value sets, written out independently.
fn count_runs(sets: &[u16]) -> usize {
    let mut runs = 1;
    let mut mask = sets[0];
    for &s in &sets[1..] {
        if s & mask == 0 {
            runs += 1;
            mask = s;
        } else {
            mask &= s;
        }
    }
    runs
}

fn sets_in_order(curr: &Frame, prev: &Frame, rect: Rect, order: u32, bpp: u32) -> Vec<u16> {
    let mut out = Vec::new();
    for (x, y) in scan(rect, order) {
        let c = curr.get(x, y);
        let p = prev.get(x, y);
        out.push((1u16 << c) | if c == p { 1u16 << (1u16 << bpp) } else { 0 });
    }
    out
}

#[test]
fn frame_new_checks_size() {
    assert!(Frame::new(2, 2, vec![0; 4]).is_some());
    assert!(Frame::new(2, 2, vec![0; 3]).is_none());
    assert!(Frame::new(0, 2, vec![]).is_none());
    assert!(Frame::new(2000, 2000, vec![0; 4_000_000]).is_none());
    let f = Frame::blank(3, 2);
    assert_eq!((f.width(), f.height(), f.get(2, 1)), (3, 2, 0));
}

#[test]
fn scan_orders() {
    let r = Rect { x: 1, y: 2, w: 3, h: 2 };
    assert_eq!(scanline(r), vec![(1, 2), (2, 2), (3, 2), (1, 3), (2, 3), (3, 3)]);
    assert_eq!(transpose(0, r), vec![(1, 2), (1, 3), (2, 2), (2, 3), (3, 2), (3, 3)]);
    assert_eq!(snake(r), vec![(1, 2), (2, 2), (3, 2), (3, 3), (2, 3), (1, 3)]);
    assert_eq!(transpose(2, r), vec![(1, 2), (1, 3), (2, 3), (2, 2), (3, 2), (3, 3)]);
    assert_eq!(get_xy(4, 2, 3, 2), (1, 1));
    assert_eq!(get_xy(2, 3, 3, 2), (1, 1));
    assert_eq!(get_xy(5, 1, 3, 2), (2, 1));
}

#[test]
fn runs_merge_compatible_pixels() {
    // kinds: 0 and 1 are colours, 2 means unchanged (bpp 1)
    let sets: Vec<u16> = vec![0b010, 0b110, 0b101, 0b100, 0b001, 0b010];
    let runs = encode(&sets);
    assert_eq!(
        runs,
        vec![
            Run { length: 2, kind: 1 },
            Run { length: 2, kind: 2 },
            Run { length: 1, kind: 0 },
            Run { length: 1, kind: 1 },
        ]
    );
}

#[test]
fn value_sets_mark_unchanged() {
    let prev = frame(2, 1, vec![0, 1]);
    let curr = frame(2, 1, vec![0, 0]);
    let sets = value_sets(&curr, &prev, &vec![(0, 0), (1, 0)], 1);
    assert_eq!(sets, vec![0b101, 0b001]);
}

#[test]
fn identical_frames_give_no_rectangles() {
    let a = with_changes(6, 5, 1, &[(2, 2, 0), (4, 1, 0)]);
    let b = with_changes(6, 5, 1, &[(2, 2, 0), (4, 1, 0)]);
    assert!(encode_frame(&a, &b, 1).is_empty());
    assert_eq!(bounding_rect(&a, &b, Rect { x: 0, y: 0, w: 6, h: 5 }), None);
}

#[test]
fn single_pixel_change() {
    let prev = Frame::blank(10, 10);
    let curr = with_changes(10, 10, 0, &[(2, 3, 1)]);
    let rects = encode_frame(&curr, &prev, 1);
    assert_eq!(rects.len(), 1);
    assert_eq!(rects[0].0, Rect { x: 2, y: 3, w: 1, h: 1 });
    assert_eq!(rects[0].2, vec![Run { length: 1, kind: 1 }]);
}

#[test]
fn bounding_rect_is_tight() {
    let prev = Frame::blank(8, 6);
    let curr = with_changes(8, 6, 0, &[(1, 4, 1), (5, 2, 1), (3, 1, 1)]);
    assert_eq!(bounding_rect(&curr, &prev, Rect { x: 0, y: 0, w: 8, h: 6 }), Some(Rect { x: 1, y: 1, w: 5, h: 4 }));
    assert_eq!(bounding_rect(&curr, &prev, Rect { x: 4, y: 0, w: 4, h: 6 }), Some(Rect { x: 5, y: 2, w: 1, h: 1 }));
}

#[test]
fn separated_changes_split_in_two() {
    let prev = Frame::blank(8, 8);
    let mut changes = Vec::new();
    for &(x0, y0) in &[(0u32, 0u32), (6, 6)] {
        for dy in 0..2 {
            for dx in 0..2 {
                changes.push((x0 + dx, y0 + dy, 1u8));
            }
        }
    }
    let curr = with_changes(8, 8, 0, &changes);
    let whole = encode_rect(&curr, &prev, Rect { x: 0, y: 0, w: 8, h: 8 }, 1);
    let rects = encode_frame(&curr, &prev, 1);
    assert_eq!(rects.len(), 2);
    assert_eq!(rects[0].0, Rect { x: 0, y: 0, w: 2, h: 2 });
    assert_eq!(rects[1].0, Rect { x: 6, y: 6, w: 2, h: 2 });
    assert!(rects[0].2.len() + rects[1].2.len() + 2 < whole.2.len());
}

#[test]
fn adjacent_changes_stay_together() {
    let prev = Frame::blank(8, 8);
    let curr = with_changes(8, 8, 0, &[(0, 0, 1), (7, 7, 1)]);
    let rects = encode_frame(&curr, &prev, 1);
    assert_eq!(rects.len(), 1);
    assert_eq!(rects[0].0, Rect { x: 0, y: 0, w: 8, h: 8 });
}

#[test]
fn diagonal_picks_fewest_runs() {
    let prev = Frame::blank(6, 6);
    let changes: Vec<(u32, u32, u8)> = (0..6).map(|i| (i, i, 1)).collect();
    let curr = with_changes(6, 6, 0, &changes);
    let rect = Rect { x: 0, y: 0, w: 6, h: 6 };
    let counts: Vec<usize> = (0..4).map(|o| count_runs(&sets_in_order(&curr, &prev, rect, o, 1))).collect();
    let best = (0..4).min_by_key(|&o| counts[o]).unwrap();
    let chosen = encode_rect(&curr, &prev, rect, 1);
    assert_eq!(chosen.1, best);
    assert_eq!(chosen.2.len(), counts[best]);
}

#[test]
fn anti_diagonal_picks_fewest_runs() {
    let prev = Frame::blank(5, 5);
    let changes: Vec<(u32, u32, u8)> = (0..5).map(|i| (4 - i, i, 1)).collect();
    let curr = with_changes(5, 5, 0, &changes);
    let rect = Rect { x: 0, y: 0, w: 5, h: 5 };
    let counts: Vec<usize> = (0..4).map(|o| count_runs(&sets_in_order(&curr, &prev, rect, o, 1))).collect();
    let best = (0..4).min_by_key(|&o| counts[o]).unwrap();
    assert_eq!(encode_rect(&curr, &prev, rect, 1).1, best);
}

#[test]
fn columns_favour_column_order() {
    let prev = Frame::blank(4, 4);
    let curr = with_changes(4, 4, 0, &[(0, 0, 1), (0, 1, 1), (0, 2, 1), (0, 3, 1), (2, 0, 1), (2, 1, 1), (2, 2, 1), (2, 3, 1)]);
    let chosen = encode_rect(&curr, &prev, Rect { x: 0, y: 0, w: 4, h: 4 }, 1);
    assert_eq!(chosen.1, 1);
    assert_eq!(chosen.2.len(), 4);
}

#[test]
fn identical_frames_give_bare_count() {
    let a = Frame::blank(4, 4);
    let b = Frame::blank(4, 4);
    let movie = encode_movie(&vec![a, b], 1);
    assert_eq!(movie.records.len(), 1);
    assert!(movie.records[0].is_empty());
    // the count code has the one symbol 0, whose code word is empty
    assert_eq!(movie.movie.len(), 0);
    assert_eq!(movie.count_values, vec![0]);
}

#[test]
fn unchanged_frame_record_is_count_word() {
    let a = Frame::blank(4, 4);
    let b = Frame::blank(4, 4);
    let c = with_changes(4, 4, 0, &[(1, 1, 1)]);
    let movie = encode_movie(&vec![a, b, c], 1);
    assert!(movie.records[0].is_empty());
    let count_code = movie.codes.counts.as_ref().unwrap();
    let mut zero = movie_codec::bitvec::BitVec::new();
    count_code.encode_value(&mut zero, 0);
    assert_eq!(zero.len(), 1);
    let mut second = movie_codec::bitvec::BitVec::new();
    movie_codec::movie::emit_frame(&mut second, &movie.records[1], 4, 4, 1, &movie.codes);
    assert_eq!(movie.movie.len(), zero.len() + second.len());
}

#[test]
fn run_symbols_and_widths() {
    assert_eq!(symbol_of(&Run { length: 5, kind: 2 }, 1), 2 + 5 * 3);
    assert_eq!(symbol_of(&Run { length: 1, kind: 0 }, 2), 5);
    assert_eq!(value_bits(0), 0);
    assert_eq!(value_bits(1), 1);
    assert_eq!(value_bits(7), 3);
    assert_eq!(value_bits(8), 4);
    assert_eq!(value_bits(u32::MAX), 32);
}

#[test]
fn nearest_palette_colour() {
    let palette = vec![[0u8, 0, 0], [255, 255, 255], [128, 128, 128]];
    assert_eq!(nearest_color(&palette, &[10, 20, 30]), 0);
    assert_eq!(nearest_color(&palette, &[250, 240, 255]), 1);
    assert_eq!(nearest_color(&palette, &[120, 140, 128]), 2);
    let ties = vec![[0u8, 0, 0], [20, 0, 0]];
    assert_eq!(nearest_color(&ties, &[10, 0, 0]), 0);
}

#[test]
fn statistics_in_order_of_appearance() {
    let rect = Rect { x: 0, y: 0, w: 2, h: 2 };
    let strip = Rect { x: 0, y: 3, w: 4, h: 1 };
    let data = vec![
        vec![(rect, 1usize, vec![Run { length: 4, kind: 1 }]), (strip, 0usize, vec![Run { length: 2, kind: 0 }, Run { length: 2, kind: 1 }])],
        vec![],
        vec![(rect, 1usize, vec![Run { length: 4, kind: 1 }])],
    ];
    let (runs, orders, counts) = collect_statistics(&data, 1);
    assert_eq!(runs, vec![(13, 2), (6, 1), (7, 1)]);
    assert_eq!(orders, vec![(1, 2)]);
    assert_eq!(counts, vec![(2, 1), (0, 1), (1, 1)]);
}
